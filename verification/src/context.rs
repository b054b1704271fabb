//! What executing code sees of storage.
//!
//! A transaction reads and stages writes through a [`TxCtx`]. A validity
//! predicate is given a [`VpCtx`]: the state before the transaction, the state
//! with the transaction's writes applied, and no way to change either.

use vstd::prelude::*;
use crate::key::{Address, Key, KeyView};
use crate::storage::{overlay, value_in, Staged, Storage, Values, WriteSet};
use crate::verifiers::AddressSet;

verus! {

/// The bytes of an optional value, for contracts.
pub open spec fn bytes_of(value: Option<&Vec<u8>>) -> Option<Seq<u8>> {
    match value {
        Some(v) => Some(v@),
        None => None,
    }
}

/// The context in which the body of one transaction runs.
pub struct TxCtx<'a> {
    pre: &'a Storage,
    writes: WriteSet,
    verifiers: AddressSet,
}

impl<'a> TxCtx<'a> {
    /// Storage as it was committed before this transaction.
    pub closed spec fn pre(self) -> Values {
        self.pre@
    }

    /// What the transaction has staged so far.
    pub closed spec fn staged(self) -> Staged {
        self.writes@
    }

    /// The keys that the transaction has written or deleted so far, in the
    /// order of keys.
    pub closed spec fn changed(self) -> Seq<KeyView> {
        self.writes.keys()
    }

    /// The addresses that the transaction has named as verifiers so far.
    pub closed spec fn verifiers(self) -> Set<Seq<u8>> {
        self.verifiers@
    }

    /// A context on top of `pre` in which nothing is staged yet.
    pub fn new(pre: &'a Storage) -> (out: Self)
        ensures
            out.pre() == pre@,
            out.staged() == Staged::empty(),
            out.changed() == Seq::<KeyView>::empty(),
            out.verifiers() == Set::<Seq<u8>>::empty(),
    {
        TxCtx { pre, writes: WriteSet::new(), verifiers: AddressSet::new() }
    }

    /// The value of `key` as this transaction has left it so far: what it
    /// staged, else what was committed before it, else nothing.
    pub fn read(&self, key: &Key) -> (out: Option<&Vec<u8>>)
        ensures
            bytes_of(out) == value_in(overlay(self.pre(), self.staged()), key@),
    {
        match self.writes.staged(key) {
            Some(staged) => staged,
            None => self.pre.get(key),
        }
    }

    /// Stages `value` as the new value of `key`.
    pub fn write(&mut self, key: Key, value: Vec<u8>)
        ensures
            final(self).staged() == old(self).staged().insert(key@, Some(value@)),
            final(self).pre() == old(self).pre(),
            final(self).verifiers() == old(self).verifiers(),
    {
        self.writes.put(key, value);
    }

    /// Stages the deletion of `key`.
    pub fn delete(&mut self, key: Key)
        ensures
            final(self).staged() == old(self).staged().insert(key@, None),
            final(self).pre() == old(self).pre(),
            final(self).verifiers() == old(self).verifiers(),
    {
        self.writes.delete(key);
    }

    /// Names `address` as one whose predicate must validate this transaction.
    pub fn insert_verifier(&mut self, address: Address)
        ensures
            final(self).verifiers() == old(self).verifiers().insert(address@),
            final(self).staged() == old(self).staged(),
            final(self).pre() == old(self).pre(),
    {
        self.verifiers.insert(address);
    }

    /// The keys that were written or deleted so far, in the order of keys.
    pub fn changed_keys(&self) -> (out: Vec<Key>)
        ensures
            out@.len() == self.changed().len(),
            forall|i: int| 0 <= i < out@.len() ==> (#[trigger] out@[i])@ == self.changed()[i],
            forall|k: KeyView| self.staged().dom().contains(k) <==> self.changed().contains(k),
    {
        let out = self.writes.changed_keys();
        proof {
            self.writes.lemma_keys();
        }
        out
    }

    /// Ends the execution and hands over what it produced: the staged writes
    /// and the verifiers.
    pub fn finish(self) -> (out: (WriteSet, AddressSet))
        ensures
            out.0@ == self.staged(),
            out.0.keys() == self.changed(),
            out.0.wf(),
            out.1@ == self.verifiers(),
    {
        // Asking for the length recalls that the changed keys are in order.
        let _ = self.writes.len();
        (self.writes, self.verifiers)
    }
}

/// The context in which a validity predicate judges one transaction. It
/// borrows all that it shows, and has nothing to write with.
pub struct VpCtx<'a> {
    pre: &'a Storage,
    writes: &'a WriteSet,
    verifiers: &'a AddressSet,
}

impl<'a> VpCtx<'a> {
    /// Storage as it was committed before the transaction.
    pub closed spec fn pre(self) -> Values {
        self.pre@
    }

    /// What the transaction staged.
    pub closed spec fn staged(self) -> Staged {
        self.writes@
    }

    /// Storage with the transaction's writes applied.
    pub open spec fn post(self) -> Values {
        overlay(self.pre(), self.staged())
    }

    /// The keys that the transaction wrote or deleted, in the order of keys.
    pub closed spec fn changed(self) -> Seq<KeyView> {
        self.writes.keys()
    }

    /// The addresses that the transaction named as verifiers.
    pub closed spec fn verifiers(self) -> Set<Seq<u8>> {
        self.verifiers@
    }

    /// The context of the transaction that staged `writes` on top of `pre`
    /// and named `verifiers`.
    pub fn new(pre: &'a Storage, writes: &'a WriteSet, verifiers: &'a AddressSet) -> (out: Self)
        ensures
            out.pre() == pre@,
            out.staged() == writes@,
            out.changed() == writes.keys(),
            out.verifiers() == verifiers@,
    {
        VpCtx { pre, writes, verifiers }
    }

    /// The value of `key` after the transaction.
    pub fn read(&self, key: &Key) -> (out: Option<&'a Vec<u8>>)
        ensures
            bytes_of(out) == value_in(self.post(), key@),
    {
        match self.writes.staged(key) {
            Some(staged) => staged,
            None => self.pre.get(key),
        }
    }

    /// The value of `key` before the transaction, whatever the transaction
    /// did to it.
    pub fn read_pre(&self, key: &Key) -> (out: Option<&'a Vec<u8>>)
        ensures
            bytes_of(out) == value_in(self.pre(), key@),
    {
        self.pre.get(key)
    }

    /// The number of keys that the transaction wrote or deleted.
    pub fn changed_len(&self) -> (n: usize)
        ensures
            n == self.changed().len(),
    {
        self.writes.len()
    }

    /// The changed key at place `i` in the order of keys.
    pub fn changed_key(&self, i: usize) -> (out: &'a Key)
        requires
            i < self.changed().len(),
        ensures
            out@ == self.changed()[i as int],
            self.staged().dom().contains(out@),
    {
        self.writes.key_at(i)
    }

    /// The keys that the transaction wrote or deleted, in the order of keys.
    pub fn changed_keys(&self) -> (out: Vec<Key>)
        ensures
            out@.len() == self.changed().len(),
            forall|i: int| 0 <= i < out@.len() ==> (#[trigger] out@[i])@ == self.changed()[i],
            forall|k: KeyView| self.staged().dom().contains(k) <==> self.changed().contains(k),
    {
        let out = self.writes.changed_keys();
        proof {
            self.writes.lemma_keys();
        }
        out
    }

    /// The addresses that the transaction named as verifiers.
    pub fn verifier_set(&self) -> (out: &'a AddressSet)
        ensures
            out@ == self.verifiers(),
    {
        self.verifiers
    }
}

/// What a transaction has written to a key is what it then reads from it.
pub proof fn lemma_read_own_write(pre: Values, staged: Staged, k: KeyView, v: Seq<u8>)
    ensures
        value_in(overlay(pre, staged.insert(k, Some(v))), k) == Some(v),
{
}

/// What a transaction has deleted it then reads as absent.
pub proof fn lemma_read_own_delete(pre: Values, staged: Staged, k: KeyView)
    ensures
        value_in(overlay(pre, staged.insert(k, None)), k) is None,
{
}

/// A key that the transaction has not touched reads the same everywhere: to
/// the transaction itself and to a predicate that looks at the state before
/// it, always as it was committed.
pub proof fn lemma_untouched_key(tx: TxCtx, vp: VpCtx, k: KeyView)
    requires
        vp.pre() == tx.pre(),
        !tx.staged().dom().contains(k),
    ensures
        value_in(vp.pre(), k) == value_in(overlay(tx.pre(), tx.staged()), k),
        value_in(vp.pre(), k) == value_in(tx.pre(), k),
{
}

/// Where a transaction has written a key, a predicate that judges it still
/// reads from the state before it what was committed, and reads from the
/// state after it what was written.
pub proof fn lemma_pre_state_fixed(tx: TxCtx, vp: VpCtx, k: KeyView, v: Seq<u8>)
    requires
        vp.pre() == tx.pre(),
        vp.staged() == tx.staged(),
        tx.staged().dom().contains(k),
        tx.staged()[k] == Some(v),
    ensures
        value_in(vp.pre(), k) == value_in(tx.pre(), k),
        value_in(vp.post(), k) == Some(v),
{
}

} // verus!
