//! Committed storage, and the writes that a transaction has staged on top of it.

use vstd::prelude::*;
use crate::error::Error;
use crate::key::{Key, KeyView};
use crate::keymap::{ascending, KeyMap, Slot};
use crate::wire::copy_bytes;

verus! {

/// Storage as contracts see it: the value of each key that has one.
pub type Values = Map<KeyView, Seq<u8>>;

/// Staged writes as contracts see them: for each key that was written, the
/// new value, or `None` where the key was deleted.
pub type Staged = Map<KeyView, Option<Seq<u8>>>;

/// The value of `k` in `state`, if it has one.
pub open spec fn value_in(state: Values, k: KeyView) -> Option<Seq<u8>> {
    if state.dom().contains(k) {
        Some(state[k])
    } else {
        None
    }
}

/// `pre` with the staged writes applied: a key that was written has its new
/// value, a key that was deleted has none, and every other key is as in `pre`.
pub open spec fn overlay(pre: Values, staged: Staged) -> Values {
    Map::new(
        |k: KeyView|
            if staged.dom().contains(k) {
                staged[k] is Some
            } else {
                pre.dom().contains(k)
            },
        |k: KeyView|
            if staged.dom().contains(k) {
                staged[k]->0
            } else {
                pre[k]
            },
    )
}

/// The writes that one transaction has staged.
pub struct WriteSet {
    staged: KeyMap<Option<Vec<u8>>>,
}

impl View for WriteSet {
    type V = Staged;

    closed spec fn view(&self) -> Staged {
        Map::new(
            |k: KeyView| self.staged@.dom().contains(k),
            |k: KeyView|
                match self.staged@[k] {
                    Some(v) => Some(v@),
                    None => None,
                },
        )
    }
}

impl WriteSet {
    /// The keys that were written or deleted, in the order of keys.
    pub closed spec fn keys(self) -> Seq<KeyView> {
        self.staged.keys()
    }

    /// The changed keys ascend, and they are the keys of the staged writes.
    pub closed spec fn wf(self) -> bool {
        &&& self.staged.wf()
        &&& ascending(self.keys())
        &&& forall|k: KeyView| self@.dom().contains(k) <==> self.keys().contains(k)
    }

    /// What the order of the changed keys says: they ascend, and they are the
    /// keys for which something is staged.
    pub proof fn lemma_keys(self)
        requires
            self.wf(),
        ensures
            ascending(self.keys()),
            forall|k: KeyView| self@.dom().contains(k) <==> self.keys().contains(k),
    {
    }

    /// No writes.
    pub fn new() -> (out: Self)
        ensures
            out@ == Staged::empty(),
            out.keys() == Seq::<KeyView>::empty(),
            out.wf(),
    {
        let out = WriteSet { staged: KeyMap::new() };
        proof {
            out.staged.lemma_entries();
            assert(out@ =~= Staged::empty());
        }
        out
    }

    /// Stages `value` as the new value of `key`.
    pub fn put(&mut self, key: Key, value: Vec<u8>)
        ensures
            final(self)@ == old(self)@.insert(key@, Some(value@)),
            final(self).wf(),
    {
        self.staged.insert(key, Some(value));
        proof {
            self.staged.lemma_entries();
            assert(self@ =~= old(self)@.insert(key@, Some(value@)));
        }
    }

    /// Stages the deletion of `key`.
    pub fn delete(&mut self, key: Key)
        ensures
            final(self)@ == old(self)@.insert(key@, None),
            final(self).wf(),
    {
        self.staged.insert(key, None);
        proof {
            self.staged.lemma_entries();
            assert(self@ =~= old(self)@.insert(key@, None));
        }
    }

    /// What was staged for `key`: `None` where nothing was, `Some(None)`
    /// where it was deleted, and the new value where it was written.
    pub fn staged(&self, key: &Key) -> (out: Option<Option<&Vec<u8>>>)
        ensures
            match out {
                None => !self@.dom().contains(key@),
                Some(None) => self@.dom().contains(key@) && self@[key@] is None,
                Some(Some(v)) => self@.dom().contains(key@) && self@[key@] == Some(v@),
            },
    {
        match self.staged.get(key) {
            None => None,
            Some(None) => Some(None),
            Some(Some(v)) => Some(Some(v)),
        }
    }

    /// The number of changed keys.
    pub fn len(&self) -> (n: usize)
        ensures
            n == self.keys().len(),
            self.wf(),
    {
        let n: usize = self.staged.len();
        proof {
            self.staged.lemma_entries();
        }
        n
    }

    /// The changed key at place `i` in the order of keys.
    pub fn key_at(&self, i: usize) -> (out: &Key)
        requires
            i < self.keys().len(),
        ensures
            out@ == self.keys()[i as int],
            self@.dom().contains(out@),
    {
        let slot = self.staged.slot(i);
        &slot.key
    }

    /// The changed keys in the order of keys, each of them once.
    pub fn changed_keys(&self) -> (out: Vec<Key>)
        ensures
            out@.len() == self.keys().len(),
            forall|i: int| 0 <= i < out@.len() ==> (#[trigger] out@[i])@ == self.keys()[i],
            self.wf(),
    {
        let mut out: Vec<Key> = Vec::new();
        let n: usize = self.len();
        let mut i: usize = 0;
        while i < n
            invariant
                i <= n == self.keys().len(),
                out@.len() == i,
                forall|j: int| 0 <= j < i ==> (#[trigger] out@[j])@ == self.keys()[j],
            decreases n - i,
        {
            out.push(self.key_at(i).clone());
            i = i + 1;
        }
        out
    }
}

/// The committed value of every key that has one.
pub struct Storage {
    slots: KeyMap<Vec<u8>>,
}

impl View for Storage {
    type V = Values;

    closed spec fn view(&self) -> Values {
        Map::new(|k: KeyView| self.slots@.dom().contains(k), |k: KeyView| self.slots@[k]@)
    }
}

impl Storage {
    /// The keys that have a value, in the order of keys.
    pub closed spec fn keys(self) -> Seq<KeyView> {
        self.slots.keys()
    }

    /// Storage in which no key has a value.
    pub fn new() -> (out: Self)
        ensures
            out@ == Values::empty(),
            out.keys() == Seq::<KeyView>::empty(),
    {
        let out = Storage { slots: KeyMap::new() };
        assert(out@ =~= Values::empty());
        out
    }

    /// Storage with the given entries, as a backing store hands them over: in
    /// the order of their keys, each key once. Entries in any other order do
    /// not come from a sound store.
    pub fn load(entries: Vec<Slot<Vec<u8>>>) -> (out: Result<Storage, Error>)
        ensures
            match out {
                Ok(s) => {
                    &&& ascending(Seq::new(entries@.len(), |i: int| entries@[i].key@))
                    &&& s.keys() == Seq::new(entries@.len(), |i: int| entries@[i].key@)
                    &&& forall|i: int|
                        0 <= i < entries@.len() ==> value_in(s@, #[trigger] entries@[i].key@)
                            == Some(entries@[i].value@)
                    &&& forall|k: KeyView|
                        s@.dom().contains(k) ==> exists|i: int|
                            0 <= i < entries@.len() && #[trigger] entries@[i].key@ == k
                },
                Err(e) => e == Error::StorageError && !ascending(
                    Seq::new(entries@.len(), |i: int| entries@[i].key@),
                ),
            },
    {
        match KeyMap::from_sorted(entries) {
            Some(slots) => {
                let out = Storage { slots };
                proof {
                    out.slots.lemma_entries();
                    assert forall|k: KeyView| out@.dom().contains(k) implies exists|i: int|
                        0 <= i < entries@.len() && #[trigger] entries@[i].key@ == k by {
                        assert(out.slots@.dom().contains(k));
                        assert(out.slots.keys().contains(k));
                        let i = choose|i: int|
                            0 <= i < out.slots.keys().len() && out.slots.keys()[i] == k;
                        assert(entries@[i].key@ == k);
                    }
                    assert forall|i: int| 0 <= i < entries@.len() implies value_in(
                        out@,
                        #[trigger] entries@[i].key@,
                    ) == Some(entries@[i].value@) by {
                        assert(out.slots.keys()[i] == entries@[i].key@);
                    }
                }
                Ok(out)
            },
            None => Err(Error::StorageError),
        }
    }

    /// The value of `key`, if it has one.
    pub fn get(&self, key: &Key) -> (out: Option<&Vec<u8>>)
        ensures
            match out {
                Some(v) => value_in(self@, key@) == Some(v@),
                None => value_in(self@, key@) is None,
            },
    {
        self.slots.get(key)
    }

    /// Gives `key` the value `value`.
    pub fn set(&mut self, key: Key, value: Vec<u8>)
        ensures
            final(self)@ == old(self)@.insert(key@, value@),
    {
        self.slots.insert(key, value);
        assert(self@ =~= old(self)@.insert(key@, value@));
    }

    /// Leaves `key` without a value.
    pub fn unset(&mut self, key: &Key)
        ensures
            final(self)@ == old(self)@.remove(key@),
    {
        self.slots.remove(key);
        assert(self@ =~= old(self)@.remove(key@));
    }

    /// The number of keys that have a value.
    pub fn len(&self) -> (n: usize)
        ensures
            n == self.keys().len(),
    {
        self.slots.len()
    }

    /// The entry at place `i` in the order of keys.
    pub fn entry(&self, i: usize) -> (out: &Slot<Vec<u8>>)
        requires
            i < self.keys().len(),
        ensures
            out.key@ == self.keys()[i as int],
            value_in(self@, out.key@) == Some(out.value@),
    {
        self.slots.slot(i)
    }

    /// Applies the staged writes: afterwards storage is what the writes lay
    /// over what it was.
    pub fn apply(&mut self, writes: &WriteSet)
        ensures
            final(self)@ == overlay(old(self)@, writes@),
    {
        let n: usize = writes.len();
        let mut i: usize = 0;
        assert(self@ =~= overlay(old(self)@, writes@.restrict(Set::new(|k: KeyView| false))));
        while i < n
            invariant
                i <= n == writes.keys().len(),
                writes.wf(),
                self@ == overlay(
                    old(self)@,
                    writes@.restrict(
                        Set::new(
                            |k: KeyView|
                                exists|j: int| 0 <= j < i && #[trigger] writes.keys()[j] == k,
                        ),
                    ),
                ),
            decreases n - i,
        {
            let key: &Key = writes.key_at(i);
            let ghost before = self@;
            let ghost seen = Set::new(
                |k: KeyView| exists|j: int| 0 <= j < i && #[trigger] writes.keys()[j] == k,
            );
            let ghost seen_next = Set::new(
                |k: KeyView| exists|j: int| 0 <= j < i + 1 && #[trigger] writes.keys()[j] == k,
            );
            match writes.staged(key) {
                Some(Some(value)) => {
                    self.set(key.clone(), copy_bytes(value));
                },
                Some(None) => {
                    self.unset(key);
                },
                None => {},
            }
            proof {
                assert(seen_next.contains(key@)) by {
                    assert(writes.keys()[i as int] == key@);
                }
                assert forall|k: KeyView| seen_next.contains(k) <==> (seen.contains(k) || k
                    == key@) by {
                    if seen_next.contains(k) {
                        let j = choose|j: int| 0 <= j < i + 1 && #[trigger] writes.keys()[j] == k;
                        if j < i {
                            assert(seen.contains(k));
                        }
                    }
                    if seen.contains(k) {
                        let j = choose|j: int| 0 <= j < i && #[trigger] writes.keys()[j] == k;
                        assert(writes.keys()[j] == k);
                    }
                }
                assert(self@ =~= overlay(old(self)@, writes@.restrict(seen_next)));
            }
            i = i + 1;
        }
        proof {
            let all = Set::new(
                |k: KeyView| exists|j: int| 0 <= j < i && #[trigger] writes.keys()[j] == k,
            );
            assert forall|k: KeyView| writes@.dom().contains(k) implies all.contains(k) by {
                assert(writes.keys().contains(k));
                let j = choose|j: int| 0 <= j < writes.keys().len() && writes.keys()[j] == k;
                assert(writes.keys()[j] == k);
            }
            assert(writes@.restrict(all) =~= writes@);
        }
    }
}

} // verus!
