//! A map from keys to values that holds its entries in the order of their keys.

use vstd::prelude::*;
use crate::key::{key_lt, lemma_key_lt_asymmetric, lemma_key_lt_transitive, Key, KeyView};
use crate::order::Rank;

verus! {

/// One entry of a map.
pub struct Slot<V> {
    pub key: Key,
    pub value: V,
}

/// Whether each key comes before every later one.
pub open spec fn ascending(keys: Seq<KeyView>) -> bool {
    forall|i: int, j: int|
        0 <= i < j < keys.len() ==> key_lt(#[trigger] keys[i], #[trigger] keys[j])
}

/// A place at which `keys` holds `k`, if it holds `k` at all.
pub open spec fn place_of(keys: Seq<KeyView>, k: KeyView) -> int {
    choose|i: int| 0 <= i < keys.len() && keys[i] == k
}

/// An ascending sequence holds each of its keys at one place only.
pub proof fn lemma_place_of(keys: Seq<KeyView>, i: int)
    requires
        ascending(keys),
        0 <= i < keys.len(),
    ensures
        place_of(keys, keys[i]) == i,
{
    let j = place_of(keys, keys[i]);
    if j < i {
        lemma_key_lt_asymmetric(keys[j], keys[i]);
    } else if i < j {
        lemma_key_lt_asymmetric(keys[i], keys[j]);
    }
}

/// A map from keys to values, held in the order of its keys.
pub struct KeyMap<V> {
    slots: Vec<Slot<V>>,
}

impl<V> View for KeyMap<V> {
    type V = Map<KeyView, V>;

    closed spec fn view(&self) -> Map<KeyView, V> {
        Map::new(
            |k: KeyView| self.keys().contains(k),
            |k: KeyView| self.values()[place_of(self.keys(), k)],
        )
    }
}

impl<V> KeyMap<V> {
    /// The keys in the order in which the map holds them.
    pub closed spec fn keys(self) -> Seq<KeyView> {
        Seq::new(self.slots@.len(), |i: int| self.slots@[i].key@)
    }

    /// The values in the order of their keys.
    pub closed spec fn values(self) -> Seq<V> {
        Seq::new(self.slots@.len(), |i: int| self.slots@[i].value)
    }

    /// The keys ascend.
    #[verifier::type_invariant]
    pub closed spec fn wf(self) -> bool {
        ascending(self.keys())
    }

    /// What the order of the keys says of the map: the keys ascend, each of
    /// them maps to the value at its place, and the map has no other key.
    pub proof fn lemma_entries(self)
        requires
            self.wf(),
        ensures
            ascending(self.keys()),
            self.keys().len() == self.values().len(),
            forall|i: int|
                0 <= i < self.keys().len() ==> self@.dom().contains(#[trigger] self.keys()[i])
                    && self@[self.keys()[i]] == self.values()[i],
            forall|k: KeyView| self@.dom().contains(k) <==> self.keys().contains(k),
    {
        assert forall|i: int| 0 <= i < self.keys().len() implies self@.dom().contains(
            #[trigger] self.keys()[i],
        ) && self@[self.keys()[i]] == self.values()[i] by {
            lemma_place_of(self.keys(), i);
        }
    }

    /// A map without entries.
    pub fn new() -> (out: Self)
        ensures
            out@ == Map::<KeyView, V>::empty(),
            out.keys() == Seq::<KeyView>::empty(),
            out.wf(),
    {
        let out = KeyMap { slots: Vec::new() };
        assert(out.keys() =~= Seq::<KeyView>::empty());
        assert(out@ =~= Map::<KeyView, V>::empty());
        out
    }

    /// The map with the given entries, which must come in the order of their
    /// keys: where a key does not come before the next one there is no such map.
    pub fn from_sorted(slots: Vec<Slot<V>>) -> (out: Option<Self>)
        ensures
            out is Some <==> ascending(Seq::new(slots@.len(), |i: int| slots@[i].key@)),
            out matches Some(m) ==> m.wf() && m.keys() == Seq::new(
                slots@.len(),
                |i: int| slots@[i].key@,
            ) && m.values() == Seq::new(slots@.len(), |i: int| slots@[i].value),
    {
        let ghost keys = Seq::new(slots@.len(), |i: int| slots@[i].key@);
        let mut i: usize = 1;
        while i < slots.len()
            invariant
                1 <= i,
                keys == Seq::new(slots@.len(), |i: int| slots@[i].key@),
                forall|a: int, b: int|
                    0 <= a < b < i && b < keys.len() ==> key_lt(
                        #[trigger] keys[a],
                        #[trigger] keys[b],
                    ),
            decreases slots@.len() - i,
        {
            match slots[i - 1].key.rank(&slots[i].key) {
                Rank::Before => {
                    assert forall|a: int, b: int|
                        0 <= a < b < i + 1 && b < keys.len() implies key_lt(
                        #[trigger] keys[a],
                        #[trigger] keys[b],
                    ) by {
                        if b == i && a < i - 1 {
                            lemma_key_lt_transitive(keys[a], keys[i - 1], keys[b]);
                        }
                    }
                },
                _ => {
                    assert(!key_lt(keys[i - 1], keys[i as int]));
                    return None;
                },
            }
            i = i + 1;
        }
        let out = KeyMap { slots };
        assert(out.keys() =~= keys);
        assert(out.values() =~= Seq::new(slots@.len(), |i: int| slots@[i].value));
        Some(out)
    }

    /// The number of entries.
    pub fn len(&self) -> (n: usize)
        ensures
            n == self.keys().len(),
            self.wf(),
    {
        proof {
            use_type_invariant(self);
        }
        self.slots.len()
    }

    /// The entry at place `i` in the order of the keys.
    pub fn slot(&self, i: usize) -> (out: &Slot<V>)
        requires
            i < self.keys().len(),
        ensures
            out.key@ == self.keys()[i as int],
            out.value == self.values()[i as int],
            self@.dom().contains(out.key@),
            self@[out.key@] == out.value,
            self.wf(),
    {
        proof {
            use_type_invariant(self);
            self.lemma_entries();
        }
        &self.slots[i]
    }

    /// The first place whose key does not come before `key`, and whether the
    /// key at that place is `key`.
    fn locate(&self, key: &Key) -> (out: (usize, bool))
        ensures
            out.0 <= self.keys().len(),
            forall|j: int| 0 <= j < out.0 ==> key_lt(#[trigger] self.keys()[j], key@),
            out.1 ==> out.0 < self.keys().len() && self.keys()[out.0 as int] == key@,
            !out.1 ==> forall|j: int|
                out.0 <= j < self.keys().len() ==> key_lt(key@, #[trigger] self.keys()[j]),
    {
        proof {
            use_type_invariant(self);
        }
        let mut low: usize = 0;
        let mut high: usize = self.slots.len();
        while low < high
            invariant
                low <= high <= self.slots@.len(),
                self.keys().len() == self.slots@.len(),
                ascending(self.keys()),
                forall|j: int| 0 <= j < low ==> key_lt(#[trigger] self.keys()[j], key@),
                forall|j: int|
                    high <= j < self.keys().len() ==> key_lt(key@, #[trigger] self.keys()[j]),
            decreases high - low,
        {
            let middle: usize = low + (high - low) / 2;
            match self.slots[middle].key.rank(key) {
                Rank::Before => {
                    assert forall|j: int| 0 <= j < middle + 1 implies key_lt(
                        #[trigger] self.keys()[j],
                        key@,
                    ) by {
                        if j < middle {
                            lemma_key_lt_transitive(
                                self.keys()[j],
                                self.keys()[middle as int],
                                key@,
                            );
                        }
                    }
                    low = middle + 1;
                },
                Rank::Same => {
                    assert forall|j: int| 0 <= j < middle implies key_lt(
                        #[trigger] self.keys()[j],
                        key@,
                    ) by {
                        assert(key_lt(self.keys()[j], self.keys()[middle as int]));
                    }
                    return (middle, true);
                },
                Rank::After => {
                    assert forall|j: int| middle <= j < self.keys().len() implies key_lt(
                        key@,
                        #[trigger] self.keys()[j],
                    ) by {
                        if middle < j {
                            lemma_key_lt_transitive(
                                key@,
                                self.keys()[middle as int],
                                self.keys()[j],
                            );
                        }
                    }
                    high = middle;
                },
            }
        }
        (low, false)
    }

    /// No key that `locate` did not find is in the map.
    proof fn lemma_absent(self, key: KeyView, at: int)
        requires
            0 <= at <= self.keys().len(),
            forall|j: int| 0 <= j < at ==> key_lt(#[trigger] self.keys()[j], key),
            forall|j: int| at <= j < self.keys().len() ==> key_lt(key, #[trigger] self.keys()[j]),
        ensures
            !self@.dom().contains(key),
    {
        if self.keys().contains(key) {
            let j = choose|j: int| 0 <= j < self.keys().len() && self.keys()[j] == key;
            if j < at {
                lemma_key_lt_asymmetric(self.keys()[j], key);
            } else {
                lemma_key_lt_asymmetric(key, self.keys()[j]);
            }
        }
    }

    /// The value that `key` maps to, if it maps to one.
    pub fn get(&self, key: &Key) -> (out: Option<&V>)
        ensures
            match out {
                Some(v) => self@.dom().contains(key@) && self@[key@] == *v,
                None => !self@.dom().contains(key@),
            },
    {
        proof {
            use_type_invariant(self);
            self.lemma_entries();
        }
        let (at, found) = self.locate(key);
        if found {
            Some(&self.slots[at].value)
        } else {
            proof {
                self.lemma_absent(key@, at as int);
            }
            None
        }
    }

    /// Maps `key` to `value`, in place of what it mapped to before.
    pub fn insert(&mut self, key: Key, value: V)
        ensures
            final(self)@ == old(self)@.insert(key@, value),
            final(self).wf(),
    {
        proof {
            use_type_invariant(&*self);
            self.lemma_entries();
        }
        let (at, found) = self.locate(&key);
        let ghost before = *self;
        let ghost k = key@;
        let mut slots: Vec<Slot<V>> = Vec::new();
        std::mem::swap(&mut slots, &mut self.slots);
        if found {
            slots.set(at, Slot { key, value });
        } else {
            proof {
                before.lemma_absent(k, at as int);
            }
            slots.insert(at, Slot { key, value });
        }
        proof {
            let old_keys = before.keys();
            let new_keys = Seq::new(slots@.len(), |i: int| slots@[i].key@);
            if found {
                assert(new_keys =~= old_keys);
            } else {
                assert(new_keys =~= old_keys.insert(at as int, k));
                assert forall|i: int, j: int| 0 <= i < j < new_keys.len() implies key_lt(
                    #[trigger] new_keys[i],
                    #[trigger] new_keys[j],
                ) by {
                    let oi = if i < at { i } else { i - 1 };
                    let oj = if j < at { j } else { j - 1 };
                    if i != at && j != at {
                        assert(key_lt(old_keys[oi], old_keys[oj]));
                    } else if i == at {
                        assert(key_lt(k, old_keys[oj]));
                    } else {
                        assert(key_lt(old_keys[oi], k));
                    }
                }
            }
        }
        let after = KeyMap { slots };
        proof {
            let old_keys = before.keys();
            let new_keys = after.keys();
            if found {
                assert(new_keys =~= old_keys);
                assert(after.values() =~= before.values().update(at as int, value));
            } else {
                assert(new_keys =~= old_keys.insert(at as int, k));
                assert(after.values() =~= before.values().insert(at as int, value));
            }
            after.lemma_entries();
            let want = before@.insert(k, value);
            assert forall|x: KeyView| after@.dom().contains(x) <==> want.dom().contains(x) by {
                if after@.dom().contains(x) {
                    let i = choose|i: int| 0 <= i < new_keys.len() && new_keys[i] == x;
                    if !found && i != at {
                        let oi = if i < at { i } else { i - 1 };
                        assert(old_keys[oi] == x);
                    }
                }
                if want.dom().contains(x) && x != k {
                    let i = choose|i: int| 0 <= i < old_keys.len() && old_keys[i] == x;
                    let ni = if found || i < at { i } else { i + 1 };
                    assert(new_keys[ni] == x);
                }
                if x == k {
                    assert(new_keys[at as int] == x);
                }
            }
            assert forall|x: KeyView| after@.dom().contains(x) implies after@[x] == want[x] by {
                let i = choose|i: int| 0 <= i < new_keys.len() && new_keys[i] == x;
                lemma_place_of(new_keys, i);
                if i == at {
                    assert(x == k);
                } else {
                    let oi = if found || i < at { i } else { i - 1 };
                    assert(old_keys[oi] == x);
                    lemma_place_of(old_keys, oi);
                    if x == k {
                        lemma_place_of(new_keys, at as int);
                    }
                }
            }
            assert(after@ =~= want);
        }
        *self = after;
    }

    /// Takes `key` and what it maps to out of the map.
    pub fn remove(&mut self, key: &Key)
        ensures
            final(self)@ == old(self)@.remove(key@),
            final(self).wf(),
    {
        proof {
            use_type_invariant(&*self);
            self.lemma_entries();
        }
        let (at, found) = self.locate(key);
        let ghost before = *self;
        let ghost k = key@;
        if !found {
            proof {
                before.lemma_absent(k, at as int);
                assert(before@ =~= before@.remove(k));
            }
            return ;
        }
        let mut slots: Vec<Slot<V>> = Vec::new();
        std::mem::swap(&mut slots, &mut self.slots);
        let _ = slots.remove(at);
        proof {
            let old_keys = before.keys();
            let new_keys = Seq::new(slots@.len(), |i: int| slots@[i].key@);
            assert(new_keys =~= old_keys.remove(at as int));
            assert forall|i: int, j: int| 0 <= i < j < new_keys.len() implies key_lt(
                #[trigger] new_keys[i],
                #[trigger] new_keys[j],
            ) by {
                let oi = if i < at { i } else { i + 1 };
                let oj = if j < at { j } else { j + 1 };
                assert(key_lt(old_keys[oi], old_keys[oj]));
            }
        }
        let after = KeyMap { slots };
        proof {
            let old_keys = before.keys();
            let new_keys = after.keys();
            assert(new_keys =~= old_keys.remove(at as int));
            assert(after.values() =~= before.values().remove(at as int));
            after.lemma_entries();
            let want = before@.remove(k);
            assert forall|x: KeyView| after@.dom().contains(x) <==> want.dom().contains(x) by {
                if after@.dom().contains(x) {
                    let i = choose|i: int| 0 <= i < new_keys.len() && new_keys[i] == x;
                    let oi = if i < at { i } else { i + 1 };
                    assert(old_keys[oi] == x);
                    if oi < at {
                        lemma_key_lt_asymmetric(old_keys[oi], old_keys[at as int]);
                    } else {
                        lemma_key_lt_asymmetric(old_keys[at as int], old_keys[oi]);
                    }
                }
                if want.dom().contains(x) {
                    let i = choose|i: int| 0 <= i < old_keys.len() && old_keys[i] == x;
                    let ni = if i < at { i } else { i - 1 };
                    assert(new_keys[ni] == x);
                }
            }
            assert forall|x: KeyView| after@.dom().contains(x) implies after@[x] == want[x] by {
                let i = choose|i: int| 0 <= i < new_keys.len() && new_keys[i] == x;
                lemma_place_of(new_keys, i);
                let oi = if i < at { i } else { i + 1 };
                assert(old_keys[oi] == x);
                lemma_place_of(old_keys, oi);
            }
            assert(after@ =~= want);
        }
        *self = after;
    }
}

} // verus!
