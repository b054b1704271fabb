//! Sets of addresses: the verifiers that a transaction names, and the
//! addresses whose predicates must validate it.

use vstd::prelude::*;
use crate::key::Address;

verus! {

/// A set of addresses, held in the order in which they came.
pub struct AddressSet {
    items: Vec<Address>,
}

/// Whether no item of `s` occurs twice.
pub open spec fn distinct(s: Seq<Seq<u8>>) -> bool {
    forall|i: int, j: int| 0 <= i < j < s.len() ==> #[trigger] s[i] != #[trigger] s[j]
}

impl View for AddressSet {
    type V = Set<Seq<u8>>;

    closed spec fn view(&self) -> Set<Seq<u8>> {
        Set::new(|a: Seq<u8>| self.items().contains(a))
    }
}

impl AddressSet {
    /// The addresses in the order in which they came.
    pub closed spec fn items(self) -> Seq<Seq<u8>> {
        Seq::new(self.items@.len(), |i: int| self.items@[i]@)
    }

    /// No address is held twice.
    #[verifier::type_invariant]
    pub closed spec fn wf(self) -> bool {
        distinct(self.items())
    }

    /// What holding the addresses in a sequence says of the set: no address
    /// is held twice, and the set is what is held.
    pub proof fn lemma_items(self)
        requires
            self.wf(),
        ensures
            distinct(self.items()),
            forall|a: Seq<u8>| self@.contains(a) <==> self.items().contains(a),
    {
    }

    /// The empty set.
    pub fn new() -> (out: Self)
        ensures
            out@ == Set::<Seq<u8>>::empty(),
            out.items() == Seq::<Seq<u8>>::empty(),
            out.wf(),
    {
        let out = AddressSet { items: Vec::new() };
        assert(out.items() =~= Seq::<Seq<u8>>::empty());
        assert(out@ =~= Set::<Seq<u8>>::empty());
        out
    }

    /// The number of addresses.
    pub fn len(&self) -> (n: usize)
        ensures
            n == self.items().len(),
            self.wf(),
    {
        proof {
            use_type_invariant(self);
        }
        self.items.len()
    }

    /// The address at place `i`.
    pub fn get(&self, i: usize) -> (out: &Address)
        requires
            i < self.items().len(),
        ensures
            out@ == self.items()[i as int],
            self@.contains(out@),
    {
        assert(self.items().contains(self.items()[i as int]));
        &self.items[i]
    }

    /// Whether `address` is in the set.
    pub fn contains(&self, address: &Address) -> (out: bool)
        ensures
            out == self@.contains(address@),
    {
        let mut i: usize = 0;
        while i < self.items.len()
            invariant
                i <= self.items@.len(),
                forall|j: int| 0 <= j < i ==> self.items()[j] != address@,
            decreases self.items@.len() - i,
        {
            if self.items[i].same(address) {
                assert(self.items()[i as int] == address@);
                return true;
            }
            i = i + 1;
        }
        false
    }

    /// Puts `address` into the set.
    pub fn insert(&mut self, address: Address)
        ensures
            final(self)@ == old(self)@.insert(address@),
            final(self).items() == if old(self)@.contains(address@) {
                old(self).items()
            } else {
                old(self).items().push(address@)
            },
            final(self).wf(),
    {
        proof {
            use_type_invariant(&*self);
        }
        if self.contains(&address) {
            assert(self@ =~= old(self)@.insert(address@));
            return ;
        }
        let ghost before = self.items();
        let ghost a = address@;
        let mut items: Vec<Address> = Vec::new();
        std::mem::swap(&mut items, &mut self.items);
        items.push(address);
        proof {
            let after = Seq::new(items@.len(), |i: int| items@[i]@);
            assert(after =~= before.push(a));
            assert forall|i: int, j: int| 0 <= i < j < after.len() implies #[trigger] after[i]
                != #[trigger] after[j] by {
                if j == before.len() {
                    assert(before.contains(before[i]));
                } else {
                    assert(before[i] != before[j]);
                }
            }
        }
        let out = AddressSet { items };
        proof {
            assert(out.items() =~= before.push(a));
            assert forall|x: Seq<u8>| out@.contains(x) <==> old(self)@.insert(a).contains(x) by {
                if out.items().contains(x) {
                    let i = choose|i: int| 0 <= i < out.items().len() && out.items()[i] == x;
                    if i < before.len() {
                        assert(before[i] == x);
                    }
                }
                if before.contains(x) {
                    let i = choose|i: int| 0 <= i < before.len() && before[i] == x;
                    assert(out.items()[i] == x);
                }
                if x == a {
                    assert(out.items()[before.len() as int] == x);
                }
            }
            assert(out@ =~= old(self)@.insert(a));
        }
        *self = out;
    }
}

} // verus!
