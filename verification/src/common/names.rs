//! Insertion-ordered tables keyed by name.
//!
//! A [`NameMap`] keeps its values in a vector and finds their positions
//! through an [`indexmap::IndexMap`] from name to position.  Its mathematical
//! model is a map from names to (views of) values, together with the order in
//! which the names were first inserted.

use indexmap::IndexMap;
use vstd::prelude::*;

verus! {

/// The insertion-ordered hash map of the `indexmap` crate.
#[verifier::external_type_specification]
#[verifier::external_body]
#[verifier::reject_recursive_types(K)]
#[verifier::reject_recursive_types(V)]
#[verifier::reject_recursive_types(S)]
pub struct ExIndexMap<K, V, S>(indexmap::IndexMap<K, V, S>);

/// The entries of an `IndexMap` in order: each key with its value.
pub uninterp spec fn slot_entries(m: IndexMap<String, usize>) -> Seq<(Seq<char>, usize)>;

/// Whether some entry has the key `k`.
pub open spec fn has_key(s: Seq<(Seq<char>, usize)>, k: Seq<char>) -> bool {
    exists|i: int| 0 <= i < s.len() && #[trigger] s[i].0 == k
}

/// The position of an entry with the key `k`.
pub open spec fn key_pos(s: Seq<(Seq<char>, usize)>, k: Seq<char>) -> int {
    choose|i: int| 0 <= i < s.len() && #[trigger] s[i].0 == k
}

/// No key occurs twice.
pub open spec fn distinct_keys(s: Seq<(Seq<char>, usize)>) -> bool {
    forall|i: int, j: int|
        0 <= i < s.len() && 0 <= j < s.len() && #[trigger] s[i].0 == #[trigger] s[j].0 ==> i == j
}

/// No value occurs twice.
pub open spec fn distinct_slots(s: Seq<(Seq<char>, usize)>) -> bool {
    forall|i: int, j: int|
        0 <= i < s.len() && 0 <= j < s.len() && #[trigger] s[i].1 == #[trigger] s[j].1 ==> i == j
}

/// `IndexMap::new`: a map without entries.
#[verifier::external_body]
fn slots_new() -> (m: IndexMap<String, usize>)
    ensures
        slot_entries(m) == Seq::<(Seq<char>, usize)>::empty(),
{
    IndexMap::new()
}

/// `IndexMap::len`: the number of entries.
#[verifier::external_body]
fn slots_len(m: &IndexMap<String, usize>) -> (n: usize)
    ensures
        n == slot_entries(*m).len(),
{
    m.len()
}

/// `IndexMap::get`: the value stored for `key`, if there is one.
#[verifier::external_body]
fn slots_get(m: &IndexMap<String, usize>, key: &str) -> (slot: Option<usize>)
    requires
        distinct_keys(slot_entries(*m)),
    ensures
        match slot {
            Some(v) => has_key(slot_entries(*m), key@) && v == slot_entries(*m)[key_pos(
                slot_entries(*m),
                key@,
            )].1,
            None => !has_key(slot_entries(*m), key@),
        },
{
    m.get(key).copied()
}

/// `IndexMap::get_index`: the entry at position `i`.
#[verifier::external_body]
fn slots_entry(m: &IndexMap<String, usize>, i: usize) -> (entry: Option<(&String, usize)>)
    ensures
        match entry {
            Some(e) => i < slot_entries(*m).len() && (e.0@, e.1) == slot_entries(*m)[i as int],
            None => i >= slot_entries(*m).len(),
        },
{
    m.get_index(i).map(|e| (e.0, *e.1))
}

/// `IndexMap::insert`: an entry with an equal key keeps its place and gets the
/// new value; otherwise the entry is added last.
#[verifier::external_body]
fn slots_insert(m: &mut IndexMap<String, usize>, key: String, value: usize)
    requires
        distinct_keys(slot_entries(*old(m))),
    ensures
        slot_entries(*final(m)) == if has_key(slot_entries(*old(m)), key@) {
            slot_entries(*old(m)).update(
                key_pos(slot_entries(*old(m)), key@),
                (key@, value),
            )
        } else {
            slot_entries(*old(m)).push((key@, value))
        },
{
    m.insert(key, value);
}

/// `IndexMap::shift_remove`: the entry with the key goes, and the others keep
/// their relative order.
#[verifier::external_body]
fn slots_remove(m: &mut IndexMap<String, usize>, key: &str)
    requires
        distinct_keys(slot_entries(*old(m))),
    ensures
        slot_entries(*final(m)) == if has_key(slot_entries(*old(m)), key@) {
            slot_entries(*old(m)).remove(key_pos(slot_entries(*old(m)), key@))
        } else {
            slot_entries(*old(m))
        },
{
    m.shift_remove(key);
}

/// The sequence `s` with `k` added at the end, unless it is in `s` already.
pub open spec fn with_name(s: Seq<Seq<char>>, k: Seq<char>) -> Seq<Seq<char>> {
    if s.contains(k) {
        s
    } else {
        s.push(k)
    }
}

/// The sequence `s` without `k`.
pub open spec fn without_name(s: Seq<Seq<char>>, k: Seq<char>) -> Seq<Seq<char>> {
    s.filter(|n: Seq<char>| n != k)
}

/// A table from names to values that remembers the order of insertion.
pub struct NameMap<V> {
    slots: IndexMap<String, usize>,
    values: Vec<V>,
}

impl<V: View> View for NameMap<V> {
    type V = Map<Seq<char>, V::V>;

    closed spec fn view(&self) -> Map<Seq<char>, V::V> {
        Map::new(
            |k: Seq<char>| has_key(slot_entries(self.slots), k),
            |k: Seq<char>|
                self.values@[slot_entries(self.slots)[key_pos(
                    slot_entries(self.slots),
                    k,
                )].1 as int]@,
        )
    }
}

impl<V: View> NameMap<V> {
    /// The names, in the order in which they were first inserted.
    pub closed spec fn names(&self) -> Seq<Seq<char>> {
        Seq::new(slot_entries(self.slots).len(), |i: int| slot_entries(self.slots)[i].0)
    }

    /// No name occurs twice, and every position is valid and occurs once.
    pub closed spec fn wf(&self) -> bool {
        &&& distinct_keys(slot_entries(self.slots))
        &&& distinct_slots(slot_entries(self.slots))
        &&& forall|i: int|
            0 <= i < slot_entries(self.slots).len() ==> (#[trigger] slot_entries(self.slots)[i]).1
                < self.values.len()
    }

    /// The names of the order are exactly the names of the map.
    pub proof fn lemma_names(&self)
        requires
            self.wf(),
        ensures
            self.names().no_duplicates(),
            forall|k: Seq<char>| #[trigger] self.names().contains(k) <==> self@.contains_key(k),
            forall|i: int|
                0 <= i < self.names().len() ==> self@.contains_key(#[trigger] self.names()[i]),
    {
        let s = slot_entries(self.slots);
        assert forall|k: Seq<char>| #[trigger] self.names().contains(k) <==> self@.contains_key(
            k,
        ) by {
            if self@.contains_key(k) {
                let i = key_pos(s, k);
                assert(s[i].0 == k);
                assert(self.names()[i] == k);
            }
            if self.names().contains(k) {
                let i = choose|i: int| 0 <= i < self.names().len() && self.names()[i] == k;
                assert(s[i].0 == k);
            }
        }
        assert forall|i: int| 0 <= i < self.names().len() implies self@.contains_key(
            #[trigger] self.names()[i],
        ) by {
            assert(s[i].0 == self.names()[i]);
        }
        assert forall|i: int, j: int|
            0 <= i < self.names().len() && 0 <= j < self.names().len() && i
                != j implies self.names()[i] != self.names()[j] by {
            assert(s[i].0 == self.names()[i] && s[j].0 == self.names()[j]);
        }
    }

    /// An empty table.
    pub fn new() -> (m: Self)
        ensures
            m.wf(),
            m@ == Map::<Seq<char>, V::V>::empty(),
            m.names() == Seq::<Seq<char>>::empty(),
    {
        let m = NameMap { slots: slots_new(), values: Vec::new() };
        assert(m@ =~= Map::empty());
        assert(m.names() =~= Seq::empty());
        m
    }

    /// The number of names.
    pub fn len(&self) -> (n: usize)
        ensures
            n == self.names().len(),
    {
        slots_len(&self.slots)
    }

    /// The value of `name`, if it has one.
    pub fn get(&self, name: &str) -> (value: Option<&V>)
        requires
            self.wf(),
        ensures
            match value {
                Some(v) => self@.contains_key(name@) && v@ == self@[name@],
                None => !self@.contains_key(name@),
            },
    {
        match slots_get(&self.slots, name) {
            Some(slot) => Some(&self.values[slot]),
            None => None,
        }
    }

    /// Whether `name` has a value.
    pub fn contains_key(&self, name: &str) -> (present: bool)
        requires
            self.wf(),
        ensures
            present == self@.contains_key(name@),
    {
        slots_get(&self.slots, name).is_some()
    }

    /// The name at position `i`.
    pub fn name_at(&self, i: usize) -> (name: &String)
        requires
            self.wf(),
            i < self.names().len(),
        ensures
            name@ == self.names()[i as int],
    {
        slots_entry(&self.slots, i).unwrap().0
    }

    /// The value of the name at position `i`.
    pub fn value_at(&self, i: usize) -> (value: &V)
        requires
            self.wf(),
            i < self.names().len(),
        ensures
            self@.contains_key(self.names()[i as int]),
            value@ == self@[self.names()[i as int]],
    {
        let slot: usize = slots_entry(&self.slots, i).unwrap().1;
        proof {
            let s = slot_entries(self.slots);
            assert(s[i as int].0 == self.names()[i as int]);
            assert(key_pos(s, self.names()[i as int]) == i);
        }
        &self.values[slot]
    }

    /// The value of the name at position `i`, to be changed in place.
    pub fn value_at_mut(&mut self, i: usize) -> (value: &mut V)
        requires
            old(self).wf(),
            i < old(self).names().len(),
        ensures
            old(self)@.contains_key(old(self).names()[i as int]),
            value@ == old(self)@[old(self).names()[i as int]],
            final(self).wf(),
            final(self).names() == old(self).names(),
            final(self)@ == old(self)@.insert(old(self).names()[i as int], final(value)@),
    {
        let slot: usize = slots_entry(&self.slots, i).unwrap().1;
        let ghost s = slot_entries(self.slots);
        let ghost k = self.names()[i as int];
        let ghost before = *self;
        proof {
            assert(s[i as int].0 == k);
            assert(key_pos(s, k) == i);
        }
        let value = &mut self.values[slot];
        proof {
            let after = after_borrow(*self);
            assert(after.names() =~= before.names());
            assert forall|q: Seq<char>| has_key(s, q) implies #[trigger] after@[q]
                == before@.insert(k, final(value)@)[q] by {
                let j = key_pos(s, q);
                assert(s[j].0 == q);
                if j != i {
                    assert(s[j].1 != s[i as int].1);
                }
            }
            assert(after@ =~= before@.insert(k, final(value)@));
        }
        value
    }

    /// Gives `name` the value `value`.  A name that is present keeps its place
    /// in the order; a new one comes last.  Returns whether it was present.
    pub fn insert(&mut self, name: String, value: V) -> (present: bool)
        requires
            old(self).wf(),
        ensures
            final(self).wf(),
            final(self)@ == old(self)@.insert(name@, value@),
            final(self).names() == with_name(old(self).names(), name@),
            present == old(self)@.contains_key(name@),
    {
        let present = self.contains_key(name.as_str());
        let slot: usize = self.values.len();
        let ghost before = *self;
        let ghost s = slot_entries(self.slots);
        proof {
            self.lemma_names();
        }
        self.values.push(value);
        slots_insert(&mut self.slots, name, slot);
        proof {
            let t = slot_entries(self.slots);
            let k = name@;
            if has_key(s, k) {
                let p = key_pos(s, k);
                assert(s[p].0 == k);
                assert(t[p].0 == k);
                assert forall|i: int| 0 <= i < t.len() implies #[trigger] t[i].0 == s[i].0 by {}
                assert(self.names() =~= before.names());
            } else {
                assert forall|i: int| 0 <= i < s.len() implies #[trigger] t[i].0 == s[i].0 && s[i].0
                    != k by {}
                assert(t[s.len() as int].0 == k);
                assert(self.names() =~= before.names().push(k));
            }
            assert forall|i: int, j: int|
                0 <= i < t.len() && 0 <= j < t.len() && #[trigger] t[i].0
                    == #[trigger] t[j].0 implies i == j by {
                if i < s.len() && j < s.len() {
                    assert(s[i].0 == s[j].0);
                }
            }
            assert forall|q: Seq<char>| #[trigger] has_key(t, q) <==> (has_key(s, q) || q == k) by {
                if has_key(s, q) {
                    let i = key_pos(s, q);
                    assert(s[i].0 == q);
                    assert(t[i].0 == q);
                }
                if has_key(t, q) {
                    let i = key_pos(t, q);
                    assert(t[i].0 == q);
                    if i < s.len() {
                        assert(s[i].0 == q);
                    }
                }
            }
            assert forall|q: Seq<char>| has_key(t, q) implies #[trigger] self@[q]
                == before@.insert(k, value@)[q] by {
                let i = key_pos(t, q);
                assert(t[i].0 == q);
                if q != k {
                    assert(has_key(s, q));
                    let j = key_pos(s, q);
                    assert(s[j].0 == q);
                    assert(t[j].0 == q);
                    assert(i == j);
                }
            }
            assert(self@ =~= before@.insert(k, value@));
        }
        present
    }

    /// Removes `name`; the other names keep their order.
    pub fn remove(&mut self, name: &str)
        requires
            old(self).wf(),
        ensures
            final(self).wf(),
            final(self)@ == old(self)@.remove(name@),
            final(self).names() == without_name(old(self).names(), name@),
    {
        let ghost before = *self;
        let ghost s = slot_entries(self.slots);
        slots_remove(&mut self.slots, name);
        proof {
            let t = slot_entries(self.slots);
            let k = name@;
            before.lemma_names();
            if has_key(s, k) {
                let p = key_pos(s, k);
                assert(s[p].0 == k);
                let back = |i: int| if i < p { i } else { i + 1 };
                assert forall|i: int| 0 <= i < t.len() implies #[trigger] t[i] == s[back(i)]
                    && back(i) != p && 0 <= back(i) < s.len() by {}
                assert forall|i: int, j: int|
                    0 <= i < t.len() && 0 <= j < t.len() && #[trigger] t[i].0
                        == #[trigger] t[j].0 implies i == j by {
                    assert(s[back(i)].0 == s[back(j)].0);
                }
                assert forall|q: Seq<char>| #[trigger] has_key(t, q) <==> (has_key(s, q) && q
                    != k) by {
                    if has_key(t, q) {
                        let i = key_pos(t, q);
                        assert(t[i].0 == q);
                        assert(s[back(i)].0 == q);
                    }
                    if has_key(s, q) && q != k {
                        let j = key_pos(s, q);
                        assert(s[j].0 == q);
                        let i = if j < p { j } else { j - 1 };
                        assert(t[i] == s[back(i)]);
                        assert(t[i].0 == q);
                    }
                }
                assert forall|q: Seq<char>| has_key(t, q) implies #[trigger] self@[q]
                    == before@[q] by {
                    let i = key_pos(t, q);
                    assert(t[i].0 == q);
                    assert(s[back(i)].0 == q);
                    let j = key_pos(s, q);
                    assert(s[j].0 == q);
                }
                assert(self@ =~= before@.remove(k));
                lemma_filter_removed(before.names(), p);
                assert(self.names() =~= before.names().remove(p));
            } else {
                assert(self@ =~= before@.remove(k));
                lemma_filter_absent(before.names(), k);
            }
        }
    }
}

/// Filtering out a name that does not occur changes nothing.
proof fn lemma_filter_absent(s: Seq<Seq<char>>, k: Seq<char>)
    requires
        !s.contains(k),
    ensures
        without_name(s, k) == s,
    decreases s.len(),
{
    reveal(Seq::filter);
    if s.len() > 0 {
        assert(s.last() == s[s.len() - 1]);
        assert(!s.drop_last().contains(k)) by {
            if s.drop_last().contains(k) {
                let i = choose|i: int| 0 <= i < s.drop_last().len() && s.drop_last()[i] == k;
                assert(s[i] == k);
            }
        }
        lemma_filter_absent(s.drop_last(), k);
        assert(s.drop_last().push(s.last()) =~= s);
    }
}

/// Filtering out a name that occurs once removes that occurrence.
proof fn lemma_filter_removed(s: Seq<Seq<char>>, p: int)
    requires
        0 <= p < s.len(),
        s.no_duplicates(),
    ensures
        without_name(s, s[p]) == s.remove(p),
    decreases s.len(),
{
    reveal(Seq::filter);
    let k = s[p];
    let init = s.drop_last();
    if p == s.len() - 1 {
        assert(!init.contains(k)) by {
            if init.contains(k) {
                let i = choose|i: int| 0 <= i < init.len() && init[i] == k;
                assert(s[i] == k);
            }
        }
        lemma_filter_absent(init, k);
        assert(s.remove(p) =~= init);
    } else {
        assert(s.last() != k);
        assert(init.no_duplicates());
        lemma_filter_removed(init, p);
        assert(s.remove(p) =~= init.remove(p).push(s.last()));
    }
}

impl NameMap<usize> {
    /// The value of `name` as a number.
    pub fn number_of(&self, name: &str) -> (value: Option<usize>)
        requires
            self.wf(),
        ensures
            value == if self@.contains_key(name@) {
                Some(self@[name@])
            } else {
                None
            },
    {
        match self.get(name) {
            Some(v) => Some(*v),
            None => None,
        }
    }
}

} // verus!
