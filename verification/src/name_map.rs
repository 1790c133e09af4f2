//! A map keyed by name, kept in the order of the names.

use vstd::prelude::*;
use crate::name_set::NameSet;
use crate::names::{compare_names, lemma_name_lt_transitive, lemma_name_order_facts, name_lt, NameOrder, NameView};

verus! {

/// Values that can be copied, the copy having the view of what was copied.
pub trait Duplicate: View + Sized {
    /// A copy of the value.
    fn duplicate(&self) -> (copy: Self)
        ensures
            copy@ == self@,
    ;
}

impl Duplicate for String {
    fn duplicate(&self) -> (copy: String) {
        self.clone()
    }
}

impl Duplicate for () {
    fn duplicate(&self) -> (copy: ()) {
        ()
    }
}

/// A map from names to values. Its entries are held in strictly ascending
/// order of their names, so no name occurs twice and the map is walked in
/// one order only.
#[derive(Debug, PartialEq, Eq)]
pub struct NameMap<V> {
    names: Vec<String>,
    values: Vec<V>,
}

/// Every name of the sequence sorts strictly before those after it.
pub open spec fn strictly_ascending(keys: Seq<NameView>) -> bool {
    forall|i: int, j: int|
        0 <= i < j < keys.len() ==> name_lt(#[trigger] keys[i], #[trigger] keys[j])
}

/// An index at which `key` stands in `keys`, if it stands there at all.
pub open spec fn index_in(keys: Seq<NameView>, key: NameView) -> int {
    choose|i: int| 0 <= i < keys.len() && keys[i] == key
}

/// The map that a sequence of names and a sequence of values stand for.
pub open spec fn seq_map<V: View>(keys: Seq<NameView>, values: Seq<V>) -> Map<NameView, V::V> {
    Map::new(|k: NameView| keys.contains(k), |k: NameView| values[index_in(keys, k)]@)
}

/// In a strictly ascending sequence a name stands at one index only.
pub proof fn lemma_ascending_unique(keys: Seq<NameView>, i: int, j: int)
    requires
        strictly_ascending(keys),
        0 <= i < keys.len(),
        0 <= j < keys.len(),
        keys[i] == keys[j],
    ensures
        i == j,
{
    lemma_name_order_facts(keys[i], keys[j]);
    if i < j {
        assert(name_lt(keys[i], keys[j]));
    } else if j < i {
        assert(name_lt(keys[j], keys[i]));
    }
}

/// What [`seq_map`] holds of a strictly ascending sequence of names.
pub proof fn lemma_seq_map<V: View>(keys: Seq<NameView>, values: Seq<V>)
    requires
        strictly_ascending(keys),
        keys.len() == values.len(),
    ensures
        seq_map(keys, values).dom() =~= keys.to_set(),
        seq_map(keys, values).dom().finite(),
        forall|i: int|
            0 <= i < keys.len() ==> seq_map(keys, values).contains_key(#[trigger] keys[i])
                && seq_map(keys, values)[keys[i]] == values[i]@,
{
    let m = seq_map(keys, values);
    assert forall|i: int| 0 <= i < keys.len() implies m.contains_key(#[trigger] keys[i]) && m[keys[i]]
        == values[i]@ by {
        let k = keys[i];
        assert(keys.contains(k));
        let j = index_in(keys, k);
        lemma_ascending_unique(keys, i, j);
    }
    vstd::seq_lib::seq_to_set_is_finite(keys);
    assert(m.dom() =~= keys.to_set());
}

impl<V: View> View for NameMap<V> {
    type V = Map<NameView, V::V>;

    closed spec fn view(&self) -> Map<NameView, V::V> {
        seq_map(self.names.deep_view(), self.values@)
    }
}

impl<V> NameMap<V> {
    #[verifier::type_invariant]
    spec fn ordered(self) -> bool {
        &&& strictly_ascending(self.names.deep_view())
        &&& self.names.len() == self.values.len()
    }
}

impl<V: View> NameMap<V> {
    /// The names of the map in ascending order.
    pub closed spec fn keys(&self) -> Seq<NameView> {
        self.names.deep_view()
    }

    /// The values of the map, in the order of their names.
    pub closed spec fn values(&self) -> Seq<V> {
        self.values@
    }

    /// What holds of every map: the names ascend strictly, and the view maps
    /// each of them to the view of the value at its index.
    pub open spec fn wf(&self) -> bool {
        &&& self.keys().len() == self.values().len()
        &&& strictly_ascending(self.keys())
        &&& self@ == seq_map(self.keys(), self.values())
        &&& self@.dom() =~= self.keys().to_set()
        &&& self@.dom().finite()
        &&& self@.dom().len() == self.keys().len()
        &&& forall|i: int|
            0 <= i < self.keys().len() ==> self@.contains_key(#[trigger] self.keys()[i]) && self@[self.keys()[i]]
                == self.values()[i]@
    }

    proof fn lemma_ordered_wf(&self)
        requires
            self.ordered(),
        ensures
            self.wf(),
    {
        lemma_seq_map(self.keys(), self.values());
        lemma_ascending_no_duplicates(self.keys());
        self.keys().unique_seq_to_set();
    }

    /// Makes known what holds of every map. Nothing is computed.
    pub fn known(&self)
        ensures
            self.wf(),
    {
        proof {
            use_type_invariant(self);
            self.lemma_ordered_wf();
        }
    }

    /// An empty map.
    pub fn new() -> (m: Self)
        ensures
            m@ == Map::<NameView, V::V>::empty(),
            m.keys() == Seq::<NameView>::empty(),
            m.wf(),
    {
        let m = NameMap { names: Vec::new(), values: Vec::new() };
        proof {
            assert(m.keys() =~= Seq::<NameView>::empty());
            m.lemma_ordered_wf();
            assert(m@ =~= Map::<NameView, V::V>::empty());
        }
        m
    }

    /// The number of entries.
    pub fn len(&self) -> (n: usize)
        ensures
            n == self.keys().len(),
            n == self@.dom().len(),
            self.wf(),
    {
        proof {
            use_type_invariant(self);
            self.lemma_ordered_wf();
        }
        self.names.len()
    }

    /// Whether the map has no entry.
    pub fn is_empty(&self) -> (r: bool)
        ensures
            r == (self.keys().len() == 0),
            r == (self@.dom() =~= Set::<NameView>::empty()),
            self.wf(),
    {
        let n = self.len();
        proof {
            if n == 0 {
                assert(self@.dom() =~= Set::<NameView>::empty());
            } else {
                assert(self@.contains_key(self.keys()[0]));
            }
        }
        n == 0
    }

    /// The index of `key` if the map has it, and else the index at which it
    /// would be inserted.
    fn search(&self, key: &str) -> (r: (usize, bool))
        ensures
            r.0 <= self.keys().len(),
            forall|i: int| 0 <= i < r.0 ==> name_lt(#[trigger] self.keys()[i], key@),
            r.1 ==> r.0 < self.keys().len() && self.keys()[r.0 as int] == key@,
            !r.1 ==> forall|i: int|
                r.0 <= i < self.keys().len() ==> name_lt(key@, #[trigger] self.keys()[i]),
            r.1 == self@.contains_key(key@),
            self.wf(),
    {
        proof {
            use_type_invariant(self);
            self.lemma_ordered_wf();
        }
        let ghost ks = self.names.deep_view();
        let mut lo: usize = 0;
        let mut hi: usize = self.names.len();
        while lo < hi
            invariant
                lo <= hi <= self.names.len(),
                ks == self.names.deep_view(),
                ks == self.keys(),
                self.wf(),
                strictly_ascending(ks),
                forall|i: int| 0 <= i < lo ==> name_lt(#[trigger] ks[i], key@),
                forall|i: int| hi <= i < ks.len() ==> name_lt(key@, #[trigger] ks[i]),
            decreases hi - lo,
        {
            let mid = lo + (hi - lo) / 2;
            match compare_names(self.names[mid].as_str(), key) {
                NameOrder::Before => {
                    proof {
                        assert forall|i: int| 0 <= i < mid + 1 implies name_lt(
                            #[trigger] ks[i],
                            key@,
                        ) by {
                            if i < mid {
                                lemma_name_lt_transitive(ks[i], ks[mid as int], key@);
                            }
                        }
                    }
                    lo = mid + 1;
                },
                NameOrder::Same => {
                    proof {
                        assert forall|i: int| 0 <= i < mid implies name_lt(#[trigger] ks[i], key@) by {
                            assert(name_lt(ks[i], ks[mid as int]));
                        }
                        assert(self@.contains_key(self.keys()[mid as int]));
                    }
                    return (mid, true);
                },
                NameOrder::After => {
                    proof {
                        assert forall|i: int| mid <= i < ks.len() implies name_lt(
                            key@,
                            #[trigger] ks[i],
                        ) by {
                            if i > mid {
                                lemma_name_lt_transitive(key@, ks[mid as int], ks[i]);
                            }
                        }
                    }
                    hi = mid;
                },
            }
        }
        proof {
            if self@.contains_key(key@) {
                let j = index_in(ks, key@);
                lemma_name_order_facts(ks[j], key@);
            }
        }
        (lo, false)
    }

    /// Whether the map has an entry for `key`.
    pub fn contains_key(&self, key: &str) -> (r: bool)
        ensures
            r == self@.contains_key(key@),
            self.wf(),
    {
        self.search(key).1
    }

    /// The index of `key` among the names, if the map has it.
    pub fn position(&self, key: &str) -> (r: Option<usize>)
        ensures
            r is Some <==> self@.contains_key(key@),
            r matches Some(i) ==> i < self.keys().len() && self.keys()[i as int] == key@,
            self.wf(),
    {
        let (at, found) = self.search(key);
        if found {
            Some(at)
        } else {
            None
        }
    }

    /// The value of `key`, if the map has it.
    pub fn get(&self, key: &str) -> (r: Option<&V>)
        ensures
            r is Some <==> self@.contains_key(key@),
            r matches Some(v) ==> v@ == self@[key@] && self.values().contains(*v),
            self.wf(),
    {
        let (at, found) = self.search(key);
        if found {
            proof {
                use_type_invariant(self);
            }
            Some(&self.values[at])
        } else {
            None
        }
    }

    /// The name at index `i` of the ascending order.
    pub fn key_at(&self, i: usize) -> (r: &String)
        requires
            i < self.keys().len(),
        ensures
            r@ == self.keys()[i as int],
            self.wf(),
    {
        proof {
            use_type_invariant(self);
            self.lemma_ordered_wf();
        }
        &self.names[i]
    }

    /// The value at index `i` of the ascending order of the names.
    pub fn value_at(&self, i: usize) -> (r: &V)
        requires
            i < self.keys().len(),
        ensures
            *r == self.values()[i as int],
            r@ == self@[self.keys()[i as int]],
            self.wf(),
    {
        proof {
            use_type_invariant(self);
            self.lemma_ordered_wf();
        }
        &self.values[i]
    }

    /// Sets the value of `key`, and returns the value it had.
    pub fn insert(&mut self, key: String, value: V) -> (previous: Option<V>)
        ensures
            final(self)@ == old(self)@.insert(key@, value@),
            previous is Some <==> old(self)@.contains_key(key@),
            previous matches Some(v) ==> v@ == old(self)@[key@],
            final(self).wf(),
    {
        let (at, found) = self.search(key.as_str());
        proof {
            use_type_invariant(&*self);
        }
        let ghost values_before = self.values@;
        let ghost keys_before = self.names.deep_view();
        let ghost view_before = self@;
        let mut taken = NameMap { names: Vec::new(), values: Vec::new() };
        std::mem::swap(self, &mut taken);
        let NameMap { names: mut names, values: mut values } = taken;
        let ghost name = key@;
        let ghost new_value = value@;
        if found {
            let mut value = value;
            std::mem::swap(&mut values[at], &mut value);
            *self = NameMap { names, values };
            proof {
                self.lemma_ordered_wf();
                lemma_seq_map(keys_before, values_before);
                assert(self@ =~= view_before.insert(name, new_value)) by {
                    assert forall|k: NameView| #[trigger] self@.contains_key(k) implies self@[k]
                        == view_before.insert(name, new_value)[k] by {
                        let j = index_in(keys_before, k);
                        assert(self.keys()[j] == k);
                        assert(self@[self.keys()[j]] == self.values()[j]@);
                        if j != at {
                            assert(view_before[keys_before[j]] == values_before[j]@);
                        }
                    }
                }
                assert(view_before[keys_before[at as int]] == values_before[at as int]@);
            }
            Some(value)
        } else {
            names.insert(at, key);
            values.insert(at, value);
            proof {
                let after = names.deep_view();
                assert(after =~= keys_before.insert(at as int, name));
                assert forall|i: int, j: int| 0 <= i < j < after.len() implies name_lt(
                    #[trigger] after[i],
                    #[trigger] after[j],
                ) by {
                    if i < at && j > at {
                        assert(name_lt(keys_before[i], keys_before[j - 1]));
                    } else if i > at {
                        assert(name_lt(keys_before[i - 1], keys_before[j - 1]));
                    } else if j < at {
                        assert(name_lt(keys_before[i], keys_before[j]));
                    } else if i == at {
                        assert(name_lt(name, keys_before[j - 1]));
                    } else {
                        assert(name_lt(keys_before[i], name));
                    }
                }
            }
            *self = NameMap { names, values };
            proof {
                self.lemma_ordered_wf();
                lemma_seq_map(keys_before, values_before);
                let target = view_before.insert(name, new_value);
                assert forall|k: NameView| self@.contains_key(k) <==> target.contains_key(k) by {
                    if self@.contains_key(k) {
                        let j = index_in(self.keys(), k);
                        if j < at {
                            assert(keys_before[j] == k);
                        } else if j > at {
                            assert(keys_before[j - 1] == k);
                        }
                    }
                    if view_before.contains_key(k) {
                        let j = index_in(keys_before, k);
                        if j < at {
                            assert(self.keys()[j] == k);
                        } else {
                            assert(self.keys()[j + 1] == k);
                        }
                    }
                    if k == name {
                        assert(self.keys()[at as int] == k);
                    }
                }
                assert forall|k: NameView| #[trigger] self@.contains_key(k) implies self@[k] == target[k] by {
                    let j = index_in(self.keys(), k);
                    assert(self@[self.keys()[j]] == self.values()[j]@);
                    if j < at {
                        assert(view_before[keys_before[j]] == values_before[j]@);
                    } else if j > at {
                        assert(view_before[keys_before[j - 1]] == values_before[j - 1]@);
                        lemma_name_order_facts(keys_before[j - 1], name);
                    }
                }
                assert(self@ =~= target);
            }
            None
        }
    }

    /// Takes the entry of `key` out of the map, and returns its value.
    pub fn remove(&mut self, key: &str) -> (removed: Option<V>)
        ensures
            final(self)@ == old(self)@.remove(key@),
            removed is Some <==> old(self)@.contains_key(key@),
            removed matches Some(v) ==> v@ == old(self)@[key@],
            final(self).wf(),
    {
        let (at, found) = self.search(key);
        proof {
            use_type_invariant(&*self);
        }
        let ghost values_before = self.values@;
        let ghost keys_before = self.names.deep_view();
        let ghost view_before = self@;
        if !found {
            proof {
                self.lemma_ordered_wf();
                assert(self@ =~= view_before.remove(key@));
            }
            return None;
        }
        let mut taken = NameMap { names: Vec::new(), values: Vec::new() };
        std::mem::swap(self, &mut taken);
        let NameMap { names: mut names, values: mut values } = taken;
        names.remove(at);
        let value = values.remove(at);
        proof {
            let after = names.deep_view();
            assert(after =~= keys_before.remove(at as int));
            assert forall|i: int, j: int| 0 <= i < j < after.len() implies name_lt(
                #[trigger] after[i],
                #[trigger] after[j],
            ) by {
                let a = if i < at { i } else { i + 1 };
                let b = if j < at { j } else { j + 1 };
                assert(name_lt(keys_before[a], keys_before[b]));
            }
        }
        *self = NameMap { names, values };
        proof {
            self.lemma_ordered_wf();
            lemma_seq_map(keys_before, values_before);
            let target = view_before.remove(key@);
            assert forall|k: NameView| self@.contains_key(k) <==> target.contains_key(k) by {
                if self@.contains_key(k) {
                    let j = index_in(self.keys(), k);
                    let a = if j < at { j } else { j + 1 };
                    assert(keys_before[a] == k);
                    if k == key@ {
                        lemma_ascending_unique(keys_before, a, at as int);
                    }
                }
                if target.contains_key(k) {
                    let j = index_in(keys_before, k);
                    if j < at {
                        assert(self.keys()[j] == k);
                    } else {
                        assert(self.keys()[j - 1] == k);
                    }
                }
            }
            assert forall|k: NameView| #[trigger] self@.contains_key(k) implies self@[k] == target[k] by {
                let j = index_in(self.keys(), k);
                assert(self@[self.keys()[j]] == self.values()[j]@);
                let a = if j < at { j } else { j + 1 };
                assert(view_before[keys_before[a]] == values_before[a]@);
                if k == key@ {
                    lemma_ascending_unique(keys_before, a, at as int);
                }
            }
            assert(self@ =~= target);
            assert(view_before[keys_before[at as int]] == values_before[at as int]@);
        }
        Some(value)
    }

    /// The value at index `i` of the ascending order of the names, to be
    /// changed in place. The names stay as they are.
    pub fn value_at_mut(&mut self, i: usize) -> (r: &mut V)
        requires
            i < old(self).keys().len(),
        ensures
            *r == old(self).values()[i as int],
            final(self).keys() == old(self).keys(),
            final(self).values() == old(self).values().update(i as int, *final(r)),
            final(self)@ == old(self)@.insert(old(self).keys()[i as int], final(r)@),
            final(self).wf(),
    {
        proof {
            use_type_invariant(&*self);
            self.lemma_ordered_wf();
            lemma_update_view(self.names.deep_view(), self.values@, i as int);
        }
        &mut self.values[i]
    }

    /// The names in ascending order and the values in the order of their
    /// names; the map is used up.
    pub fn into_parts(self) -> (parts: (Vec<String>, Vec<V>))
        ensures
            parts.0.deep_view() == self.keys(),
            parts.1@ == self.values(),
            self.wf(),
    {
        proof {
            use_type_invariant(&self);
            self.lemma_ordered_wf();
        }
        (self.names, self.values)
    }
}

impl<V: View> NameMap<V> {
    /// The names of the map as a set.
    pub fn key_set(&self) -> (names: NameSet)
        ensures
            names@ == self@.dom(),
            names.wf(),
            self.wf(),
    {
        let mut names = NameSet::new();
        let n = self.len();
        let mut i: usize = 0;
        while i < n
            invariant
                i <= n,
                n == self.keys().len(),
                self.wf(),
                names.wf(),
                names@ =~= self.keys().take(i as int).to_set(),
            decreases n - i,
        {
            names.insert(self.key_at(i).clone());
            proof {
                assert(self.keys().take(i as int + 1) =~= self.keys().take(i as int).push(
                    self.keys()[i as int],
                ));
                crate::name_set::lemma_to_set_push(self.keys().take(i as int), self.keys()[i as int]);
            }
            i += 1;
        }
        proof {
            assert(self.keys().take(n as int) =~= self.keys());
        }
        names
    }

    /// Moves the entries of `other` into the map. Where both have a name,
    /// the value of `other` replaces the value of the map.
    pub fn absorb(&mut self, other: NameMap<V>)
        ensures
            final(self)@ == old(self)@.union_prefer_right(other@),
            final(self).wf(),
    {
        let ghost start = self@;
        let ghost added = other@;
        let ghost keys = other.keys();
        let ghost values = other.values();
        let (mut names, mut entries) = other.into_parts();
        self.known();
        proof {
            assert(keys.take(keys.len() as int) =~= keys);
            assert(values.take(keys.len() as int) =~= values);
            assert(self@ =~= absorbed(start, added, keys.take(entries.len() as int)));
        }
        while entries.len() > 0
            invariant
                names.len() == entries.len(),
                names.deep_view() == keys.take(entries.len() as int),
                entries@ == values.take(entries.len() as int),
                entries.len() <= keys.len(),
                keys.len() == values.len(),
                strictly_ascending(keys),
                added == seq_map(keys, values),
                self.wf(),
                self@ == absorbed(start, added, keys.take(entries.len() as int)),
            decreases entries.len(),
        {
            let ghost n = entries.len() as int;
            let ghost before = self@;
            let ghost ns = names.deep_view();
            let ghost es = entries@;
            let value = entries.pop().unwrap();
            let key = names.pop().unwrap();
            proof {
                lemma_seq_map(keys, values);
                assert(ns[n - 1] == key@);
                assert(key@ == keys[n - 1]);
                assert(value == values[n - 1]);
                assert(names.deep_view() =~= keys.take(n - 1));
                assert(entries@ =~= values.take(n - 1));
                assert(added[keys[n - 1]] == values[n - 1]@);
            }
            self.insert(key, value);
            proof {
                let waiting = keys.take(n - 1);
                let target = absorbed(start, added, waiting);
                assert forall|k: NameView| keys.take(n).contains(k) <==> (waiting.contains(k) || k
                    == keys[n - 1]) by {
                    if keys.take(n).contains(k) {
                        let j = choose|j: int| 0 <= j < n && keys.take(n)[j] == k;
                        if j < n - 1 {
                            assert(waiting[j] == k);
                        }
                    }
                    if waiting.contains(k) {
                        let j = choose|j: int| 0 <= j < n - 1 && waiting[j] == k;
                        assert(keys.take(n)[j] == k);
                    }
                    if k == keys[n - 1] {
                        assert(keys.take(n)[n - 1] == k);
                    }
                }
                assert(!waiting.contains(keys[n - 1])) by {
                    if waiting.contains(keys[n - 1]) {
                        let j = choose|j: int| 0 <= j < n - 1 && waiting[j] == keys[n - 1];
                        lemma_ascending_unique(keys, j, n - 1);
                    }
                }
                assert(self@ =~= target);
            }
        }
        proof {
            assert(keys.take(0) =~= Seq::<NameView>::empty());
            assert(self@ =~= start.union_prefer_right(added));
        }
    }

    /// Keeps the entries whose names are in `names`, and drops the others.
    pub fn retain_names(&mut self, names: &NameSet)
        ensures
            final(self)@ == old(self)@.restrict(names@),
            final(self).wf(),
    {
        let ghost start = self@;
        let mut taken = NameMap::new();
        std::mem::swap(self, &mut taken);
        let ghost keys = taken.keys();
        let ghost values = taken.values();
        let (mut waiting_names, mut entries) = taken.into_parts();
        proof {
            assert(keys.take(keys.len() as int) =~= keys);
            assert(values.take(keys.len() as int) =~= values);
            assert(self@ =~= kept(start, names@, keys.take(entries.len() as int)));
        }
        while entries.len() > 0
            invariant
                waiting_names.len() == entries.len(),
                waiting_names.deep_view() == keys.take(entries.len() as int),
                entries@ == values.take(entries.len() as int),
                entries.len() <= keys.len(),
                keys.len() == values.len(),
                strictly_ascending(keys),
                start == seq_map(keys, values),
                self.wf(),
                self@ == kept(start, names@, keys.take(entries.len() as int)),
            decreases entries.len(),
        {
            let ghost n = entries.len() as int;
            let ghost ns = waiting_names.deep_view();
            let ghost es = entries@;
            let value = entries.pop().unwrap();
            let key = waiting_names.pop().unwrap();
            proof {
                lemma_seq_map(keys, values);
                assert(ns[n - 1] == key@);
                assert(key@ == keys[n - 1]);
                assert(value == values[n - 1]);
                assert(waiting_names.deep_view() =~= keys.take(n - 1));
                assert(entries@ =~= values.take(n - 1));
                assert(start[keys[n - 1]] == values[n - 1]@);
                assert(start.contains_key(keys[n - 1]));
            }
            if names.contains(key.as_str()) {
                self.insert(key, value);
            }
            proof {
                let waiting = keys.take(n - 1);
                assert forall|k: NameView| keys.take(n).contains(k) <==> (waiting.contains(k) || k
                    == keys[n - 1]) by {
                    if keys.take(n).contains(k) {
                        let j = choose|j: int| 0 <= j < n && keys.take(n)[j] == k;
                        if j < n - 1 {
                            assert(waiting[j] == k);
                        }
                    }
                    if waiting.contains(k) {
                        let j = choose|j: int| 0 <= j < n - 1 && waiting[j] == k;
                        assert(keys.take(n)[j] == k);
                    }
                    if k == keys[n - 1] {
                        assert(keys.take(n)[n - 1] == k);
                    }
                }
                assert(!waiting.contains(keys[n - 1])) by {
                    if waiting.contains(keys[n - 1]) {
                        let j = choose|j: int| 0 <= j < n - 1 && waiting[j] == keys[n - 1];
                        lemma_ascending_unique(keys, j, n - 1);
                    }
                }
                assert(self@ =~= kept(start, names@, waiting));
            }
        }
        proof {
            assert(keys.take(0) =~= Seq::<NameView>::empty());
            assert(self@ =~= start.restrict(names@));
        }
    }
}

impl<V: Duplicate> NameMap<V> {
    /// A copy of the entries whose names are in `names`.
    pub fn restricted(&self, names: &NameSet) -> (part: NameMap<V>)
        ensures
            part@ == self@.restrict(names@),
            part.wf(),
            self.wf(),
    {
        let mut part = NameMap::new();
        let n = self.len();
        let mut i: usize = 0;
        proof {
            assert(self.keys().take(0) =~= Seq::<NameView>::empty());
            assert(part@ =~= self@.restrict(names@).restrict(self.keys().take(0).to_set()));
        }
        while i < n
            invariant
                i <= n,
                n == self.keys().len(),
                self.wf(),
                part.wf(),
                part@ == self@.restrict(names@).restrict(self.keys().take(i as int).to_set()),
            decreases n - i,
        {
            let key = self.key_at(i);
            if names.contains(key.as_str()) {
                part.insert(key.clone(), self.value_at(i).duplicate());
            }
            proof {
                assert(self.keys().take(i as int + 1) =~= self.keys().take(i as int).push(
                    self.keys()[i as int],
                ));
                crate::name_set::lemma_to_set_push(self.keys().take(i as int), self.keys()[i as int]);
                assert(part@ =~= self@.restrict(names@).restrict(
                    self.keys().take(i as int + 1).to_set(),
                ));
            }
            i += 1;
        }
        proof {
            assert(self.keys().take(n as int) =~= self.keys());
            assert(part@ =~= self@.restrict(names@));
        }
        part
    }

    /// A copy of the map.
    pub fn duplicate_map(&self) -> (copy: NameMap<V>)
        ensures
            copy@ == self@,
            copy.wf(),
            self.wf(),
    {
        let mut copy = NameMap::new();
        let n = self.len();
        let mut i: usize = 0;
        proof {
            assert(self.keys().take(0) =~= Seq::<NameView>::empty());
            assert(copy@ =~= self@.restrict(self.keys().take(0).to_set()));
        }
        while i < n
            invariant
                i <= n,
                n == self.keys().len(),
                self.wf(),
                copy.wf(),
                copy@ == self@.restrict(self.keys().take(i as int).to_set()),
            decreases n - i,
        {
            copy.insert(self.key_at(i).clone(), self.value_at(i).duplicate());
            proof {
                assert(self.keys().take(i as int + 1) =~= self.keys().take(i as int).push(
                    self.keys()[i as int],
                ));
                crate::name_set::lemma_to_set_push(self.keys().take(i as int), self.keys()[i as int]);
                assert(copy@ =~= self@.restrict(self.keys().take(i as int + 1).to_set()));
            }
            i += 1;
        }
        proof {
            assert(self.keys().take(n as int) =~= self.keys());
            assert(copy@ =~= self@);
        }
        copy
    }
}

/// `start` with the entries of `added` whose names are not in `waiting`;
/// where both have a name, the value of `added`.
pub open spec fn absorbed<W>(start: Map<NameView, W>, added: Map<NameView, W>, waiting: Seq<NameView>) -> Map<
    NameView,
    W,
> {
    start.union_prefer_right(added.remove_keys(waiting.to_set()))
}

/// The entries of `start` whose names are in `names` and not in `waiting`.
pub open spec fn kept<W>(start: Map<NameView, W>, names: Set<NameView>, waiting: Seq<NameView>) -> Map<
    NameView,
    W,
> {
    start.restrict(names).remove_keys(waiting.to_set())
}

/// The names of a finite set in ascending order.
pub open spec fn ascending_keys(names: Set<NameView>) -> Seq<NameView> {
    choose|keys: Seq<NameView>| strictly_ascending(keys) && keys.to_set() =~= names
}

/// The values of a map in the ascending order of their names.
pub open spec fn values_in_order<W>(map: Map<NameView, W>) -> Seq<W> {
    let keys = ascending_keys(map.dom());
    Seq::new(keys.len(), |i: int| map[keys[i]])
}

/// Two strictly ascending sequences with the same names are the same.
pub proof fn lemma_ascending_is_unique(a: Seq<NameView>, b: Seq<NameView>)
    requires
        strictly_ascending(a),
        strictly_ascending(b),
        a.to_set() =~= b.to_set(),
    ensures
        a == b,
    decreases a.len(),
{
    if a.len() == 0 {
        if b.len() > 0 {
            assert(b.to_set().contains(b[0]));
            assert(a.to_set().contains(b[0]));
        }
        assert(a =~= b);
    } else if b.len() == 0 {
        assert(a.to_set().contains(a[0]));
        assert(b.to_set().contains(a[0]));
    } else {
        let x = a.last();
        let y = b.last();
        assert(a.to_set().contains(x));
        assert(b.to_set().contains(x));
        let i = choose|i: int| 0 <= i < b.len() && b[i] == x;
        assert(b.to_set().contains(y));
        assert(a.to_set().contains(y));
        let j = choose|j: int| 0 <= j < a.len() && a[j] == y;
        lemma_name_order_facts(x, y);
        if i < b.len() - 1 {
            assert(name_lt(b[i], b[b.len() - 1]));
        }
        if j < a.len() - 1 {
            assert(name_lt(a[j], a[a.len() - 1]));
        }
        assert(x == y);
        let a0 = a.drop_last();
        let b0 = b.drop_last();
        assert forall|k: NameView| a0.to_set().contains(k) <==> b0.to_set().contains(k) by {
            if a0.to_set().contains(k) {
                let p = choose|p: int| 0 <= p < a0.len() && a0[p] == k;
                assert(a[p] == k);
                assert(name_lt(a[p], a[a.len() - 1]));
                lemma_name_order_facts(k, x);
                assert(a.to_set().contains(k));
                assert(b.to_set().contains(k));
                let q = choose|q: int| 0 <= q < b.len() && b[q] == k;
                assert(q < b.len() - 1);
                assert(b0[q] == k);
            }
            if b0.to_set().contains(k) {
                let p = choose|p: int| 0 <= p < b0.len() && b0[p] == k;
                assert(b[p] == k);
                assert(name_lt(b[p], b[b.len() - 1]));
                lemma_name_order_facts(k, y);
                assert(b.to_set().contains(k));
                assert(a.to_set().contains(k));
                let q = choose|q: int| 0 <= q < a.len() && a[q] == k;
                assert(q < a.len() - 1);
                assert(a0[q] == k);
            }
        }
        assert forall|p: int, q: int| 0 <= p < q < a0.len() implies name_lt(
            #[trigger] a0[p],
            #[trigger] a0[q],
        ) by {
            assert(name_lt(a[p], a[q]));
        }
        assert forall|p: int, q: int| 0 <= p < q < b0.len() implies name_lt(
            #[trigger] b0[p],
            #[trigger] b0[q],
        ) by {
            assert(name_lt(b[p], b[q]));
        }
        lemma_ascending_is_unique(a0, b0);
        assert(a =~= a0.push(x));
        assert(b =~= b0.push(y));
    }
}

impl<V: View> NameMap<V> {
    /// The names of a map are the names of its view in ascending order, and
    /// the views of its values are the values of its view in that order.
    pub proof fn lemma_keys_in_order(&self)
        requires
            self.wf(),
        ensures
            self.keys() == ascending_keys(self@.dom()),
            values_in_order(self@) == Seq::new(self.keys().len(), |i: int| self.values()[i]@),
    {
        let chosen = ascending_keys(self@.dom());
        assert(strictly_ascending(self.keys()) && self.keys().to_set() =~= self@.dom());
        lemma_ascending_is_unique(self.keys(), chosen);
        assert(values_in_order(self@) =~= Seq::new(self.keys().len(), |i: int| self.values()[i]@));
    }
}

/// Changing the value at one index changes the map at the name of that
/// index, and nowhere else.
pub proof fn lemma_update_view<V: View>(keys: Seq<NameView>, values: Seq<V>, i: int)
    requires
        strictly_ascending(keys),
        keys.len() == values.len(),
        0 <= i < keys.len(),
    ensures
        forall|v: V| #[trigger]
            seq_map(keys, values.update(i, v)) == seq_map(keys, values).insert(keys[i], v@),
        forall|v: V|
            (#[trigger] seq_map(keys, values.update(i, v))).dom() =~= keys.to_set() && seq_map(
                keys,
                values.update(i, v),
            ).dom().finite(),
        forall|v: V, j: int|
            0 <= j < keys.len() ==> (#[trigger] seq_map(keys, values.update(i, v))).contains_key(
                #[trigger] keys[j],
            ) && seq_map(keys, values.update(i, v))[keys[j]] == values.update(i, v)[j]@,
{
    assert forall|v: V|
        (#[trigger] seq_map(keys, values.update(i, v))).dom() =~= keys.to_set() && seq_map(
            keys,
            values.update(i, v),
        ).dom().finite() by {
        lemma_seq_map(keys, values.update(i, v));
    }
    assert forall|v: V, j: int| 0 <= j < keys.len() implies (#[trigger] seq_map(
        keys,
        values.update(i, v),
    )).contains_key(#[trigger] keys[j]) && seq_map(keys, values.update(i, v))[keys[j]]
        == values.update(i, v)[j]@ by {
        lemma_seq_map(keys, values.update(i, v));
    }
    assert forall|v: V| #[trigger]
        seq_map(keys, values.update(i, v)) == seq_map(keys, values).insert(keys[i], v@) by {
        let after = seq_map(keys, values.update(i, v));
        let target = seq_map(keys, values).insert(keys[i], v@);
        lemma_seq_map(keys, values);
        lemma_seq_map(keys, values.update(i, v));
        assert(keys.to_set().contains(keys[i]));
        assert forall|k: NameView| #[trigger] after.contains_key(k) implies after[k] == target[k] by {
            let j = index_in(keys, k);
            assert(after[keys[j]] == values.update(i, v)[j]@);
            assert(seq_map(keys, values)[keys[j]] == values[j]@);
            if j != i && k == keys[i] {
                lemma_ascending_unique(keys, j, i);
            }
        }
        assert(after =~= target);
    }
}

/// The items of `v` in the opposite order.
pub fn reversed<T>(v: Vec<T>) -> (r: Vec<T>)
    ensures
        r@.len() == v@.len(),
        forall|i: int| 0 <= i < r@.len() ==> r@[i] == v@[v@.len() - 1 - i],
{
    let mut v = v;
    let ghost all = v@;
    let mut r: Vec<T> = Vec::new();
    while v.len() > 0
        invariant
            v@.len() + r@.len() == all.len(),
            forall|i: int| 0 <= i < v@.len() ==> v@[i] == all[i],
            forall|i: int| 0 <= i < r@.len() ==> r@[i] == all[all.len() - 1 - i],
        decreases v.len(),
    {
        let item = v.pop().unwrap();
        r.push(item);
    }
    r
}

/// A strictly ascending sequence of names holds no name twice.
pub proof fn lemma_ascending_no_duplicates(keys: Seq<NameView>)
    requires
        strictly_ascending(keys),
    ensures
        keys.no_duplicates(),
{
    assert forall|i: int, j: int| 0 <= i < keys.len() && 0 <= j < keys.len() && i != j implies keys[i]
        != keys[j] by {
        if keys[i] == keys[j] {
            lemma_ascending_unique(keys, i, j);
        }
    }
}

} // verus!
