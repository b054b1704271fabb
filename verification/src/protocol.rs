//! One attempt to apply a transaction, from the submitted bytes to commit or
//! rollback.
//!
//! An attempt goes through its phases in order: the envelope is decoded, its
//! signature is checked, the body runs, and the predicates of every address
//! that the transaction concerns judge what the body staged. Only where all of
//! them accept are the staged writes applied; in every other case storage
//! stays as it was.

use vstd::prelude::*;
use crate::context::{TxCtx, VpCtx};
use crate::envelope::{decoded, EnvelopeView, SignedEnvelope};
use crate::error::{Error, Fault};
use crate::key::{key_wf, Address, Key, KeyView, Segment, SegmentView};
use crate::limiter::Limiter;
use crate::predicate::{eval, evaluated, world_of, Outcome, Registry, World};
use crate::keymap::ascending;
use crate::storage::{overlay, value_in, Staged, Storage, Values, WriteSet};
use crate::transaction::{applied, apply_tx, TxBody};
use crate::verifiers::AddressSet;
use crate::wire::array_bytes;

verus! {

/// What one execution unit may consume, and how deep predicates may evaluate
/// one another.
#[derive(Clone, Copy, Debug, PartialEq, Eq, Structural)]
pub struct Limits {
    /// The budget of the body, and of each predicate with all that it evaluates.
    pub budget: u64,
    /// How many evaluations deep a predicate may go, its own included.
    pub depth: u32,
}

/// Where an attempt stands.
#[derive(Clone, Copy, Debug, PartialEq, Eq, Structural)]
pub enum Phase {
    /// The submitted bytes are to be decoded.
    Decoding,
    /// The signature is to be checked.
    Verifying,
    /// The body is to run.
    Executing,
    /// The predicates are to judge.
    Validating,
    /// The staged writes were applied. Nothing more happens.
    Committed,
    /// The staged writes were dropped. Nothing more happens.
    RolledBack,
}

/// Why an attempt was rolled back.
#[derive(Clone, Copy, Debug, PartialEq, Eq, Structural)]
pub enum Cause {
    /// The submitted bytes are no envelope.
    Undecodable,
    /// The signature does not verify over the payload.
    BadSignature,
    /// The body failed.
    Execution(Error),
    /// The predicate of some address did not accept.
    Refused,
}

/// The text segment of the key under which an account's predicate is stored: `?`.
pub const PREDICATE: [u8; 1] = [63];

/// The key under which the reference of `address`'s predicate is stored.
pub open spec fn predicate_key_of(address: Seq<u8>) -> KeyView {
    seq![SegmentView::Addr(address), SegmentView::Text(PREDICATE@)]
}

/// The addresses that `k` holds as segments.
pub open spec fn addresses_in(k: KeyView) -> Set<Seq<u8>> {
    Set::new(
        |a: Seq<u8>| exists|j: int| 0 <= j < k.len() && #[trigger] k[j] == SegmentView::Addr(a),
    )
}

/// The addresses whose predicates must judge a transaction: those that it
/// named as verifiers, and those that stand in a key that it changed.
pub open spec fn triggered(changed: Seq<KeyView>, verifiers: Set<Seq<u8>>) -> Set<Seq<u8>> {
    Set::new(
        |a: Seq<u8>|
            verifiers.contains(a) || exists|i: int|
                0 <= i < changed.len() && addresses_in(#[trigger] changed[i]).contains(a),
    )
}

/// A budget of which nothing has been consumed.
pub open spec fn fresh(limits: Limits) -> Limiter {
    Limiter { remaining: limits.budget, tripped: false }
}

/// What the predicate of `address` says of the transaction that submitted
/// `tx_data`, and what it leaves of its budget. The predicate is the one whose
/// reference was stored for the address before the transaction; an address
/// without one has nothing that could accept.
pub open spec fn verdict_of(world: World, address: Seq<u8>, tx_data: Seq<u8>, limits: Limits) -> (
    Outcome,
    Limiter,
) {
    match value_in(world.pre, predicate_key_of(address)) {
        Some(reference) => evaluated(world, reference, tx_data, fresh(limits), limits.depth as nat),
        None => (Outcome::Failed(Error::LogicError(Fault::NoPredicate)), fresh(limits)),
    }
}

/// Whether the predicate of every one of `addresses` accepts.
pub open spec fn all_accept(
    world: World,
    addresses: Set<Seq<u8>>,
    tx_data: Seq<u8>,
    limits: Limits,
) -> bool {
    forall|a: Seq<u8>|
        addresses.contains(a) ==> (#[trigger] verdict_of(world, a, tx_data, limits)).0
            == Outcome::Accept
}

/// The key under which the reference of `address`'s predicate is stored.
pub fn predicate_key(address: &Address) -> (out: Key)
    ensures
        out@ == predicate_key_of(address@),
{
    let ghost want = predicate_key_of(address@);
    let text: Vec<u8> = array_bytes(&PREDICATE);
    let mut segments: Vec<Segment> = Vec::new();
    segments.push(Segment::Addr(address.clone()));
    segments.push(Segment::Text(text));
    proof {
        assert(Seq::new(segments@.len(), |i: int| segments@[i]@) =~= want);
        assert(key_wf(want));
    }
    match Key::from_segments(segments) {
        Ok(key) => key,
        Err(_) => vstd::pervasive::unreached(),
    }
}

/// Puts the addresses that `key` holds into `out`.
fn add_addresses(key: &Key, out: &mut AddressSet)
    ensures
        final(out)@ == old(out)@.union(addresses_in(key@)),
{
    let n: usize = key.len();
    let mut j: usize = 0;
    assert(out@ =~= old(out)@.union(
        Set::new(
            |a: Seq<u8>| exists|m: int| 0 <= m < j && #[trigger] key@[m] == SegmentView::Addr(a),
        ),
    ));
    while j < n
        invariant
            j <= n == key@.len(),
            out@ == old(out)@.union(
                Set::new(
                    |a: Seq<u8>|
                        exists|m: int| 0 <= m < j && #[trigger] key@[m] == SegmentView::Addr(a),
                ),
            ),
        decreases n - j,
    {
        let ghost before = out@;
        let ghost seen = Set::new(
            |a: Seq<u8>| exists|m: int| 0 <= m < j && #[trigger] key@[m] == SegmentView::Addr(a),
        );
        let ghost seen_next = Set::new(
            |a: Seq<u8>|
                exists|m: int| 0 <= m < j + 1 && #[trigger] key@[m] == SegmentView::Addr(a),
        );
        match key.segment(j) {
            Segment::Addr(a) => {
                out.insert(a.clone());
                proof {
                    assert(key@[j as int] == SegmentView::Addr(a@));
                    assert forall|x: Seq<u8>| seen_next.contains(x) <==> (seen.contains(x) || x
                        == a@) by {
                        if seen_next.contains(x) {
                            let m = choose|m: int|
                                0 <= m < j + 1 && #[trigger] key@[m] == SegmentView::Addr(x);
                            if m < j {
                                assert(seen.contains(x));
                            }
                        }
                        if seen.contains(x) {
                            let m = choose|m: int|
                                0 <= m < j && #[trigger] key@[m] == SegmentView::Addr(x);
                            assert(key@[m] == SegmentView::Addr(x));
                        }
                    }
                    assert(out@ =~= old(out)@.union(seen_next));
                }
            },
            Segment::Text(_) => {
                proof {
                    assert forall|x: Seq<u8>| seen_next.contains(x) <==> seen.contains(x) by {
                        if seen_next.contains(x) {
                            let m = choose|m: int|
                                0 <= m < j + 1 && #[trigger] key@[m] == SegmentView::Addr(x);
                            assert(m < j);
                        }
                        if seen.contains(x) {
                            let m = choose|m: int|
                                0 <= m < j && #[trigger] key@[m] == SegmentView::Addr(x);
                            assert(key@[m] == SegmentView::Addr(x));
                        }
                    }
                    assert(out@ =~= old(out)@.union(seen_next));
                }
            },
        }
        j = j + 1;
    }
    assert(out@ =~= old(out)@.union(addresses_in(key@)));
}

/// The addresses whose predicates must judge the transaction that staged
/// `writes` and named `verifiers`.
pub fn triggered_addresses(writes: &WriteSet, verifiers: &AddressSet) -> (out: AddressSet)
    ensures
        out@ == triggered(writes.keys(), verifiers@),
{
    let mut out = AddressSet::new();
    let n: usize = verifiers.len();
    let mut i: usize = 0;
    while i < n
        invariant
            i <= n == verifiers.items().len(),
            verifiers.wf(),
            forall|a: Seq<u8>|
                out@.contains(a) <==> exists|m: int|
                    0 <= m < i && #[trigger] verifiers.items()[m] == a,
        decreases n - i,
    {
        let ghost before = out@;
        let address: &Address = verifiers.get(i);
        out.insert(address.clone());
        proof {
            assert forall|a: Seq<u8>| out@.contains(a) <==> exists|m: int|
                0 <= m < i + 1 && #[trigger] verifiers.items()[m] == a by {
                if before.contains(a) {
                    let m = choose|m: int| 0 <= m < i && #[trigger] verifiers.items()[m] == a;
                    assert(verifiers.items()[m] == a);
                }
                if a == address@ {
                    assert(verifiers.items()[i as int] == a);
                }
            }
        }
        i = i + 1;
    }
    proof {
        verifiers.lemma_items();
        assert forall|a: Seq<u8>| out@.contains(a) <==> verifiers@.contains(a) by {
            if out@.contains(a) {
                let m = choose|m: int| 0 <= m < i && #[trigger] verifiers.items()[m] == a;
                assert(verifiers.items().contains(a));
            }
            if verifiers@.contains(a) {
                assert(verifiers.items().contains(a));
                let m = choose|m: int|
                    0 <= m < verifiers.items().len() && verifiers.items()[m] == a;
                assert(verifiers.items()[m] == a);
            }
        }
        assert(out@ =~= verifiers@);
    }
    let count: usize = writes.len();
    let mut i: usize = 0;
    assert(out@ =~= triggered(writes.keys().take(0), verifiers@));
    while i < count
        invariant
            i <= count == writes.keys().len(),
            out@ == triggered(writes.keys().take(i as int), verifiers@),
        decreases count - i,
    {
        let key: &Key = writes.key_at(i);
        let ghost before = out@;
        add_addresses(key, &mut out);
        proof {
            let upto = writes.keys().take(i as int);
            let next = writes.keys().take(i + 1);
            assert forall|a: Seq<u8>| triggered(next, verifiers@).contains(a) <==> (triggered(
                upto,
                verifiers@,
            ).contains(a) || addresses_in(key@).contains(a)) by {
                if triggered(next, verifiers@).contains(a) && !verifiers@.contains(a) {
                    let m = choose|m: int|
                        0 <= m < next.len() && addresses_in(#[trigger] next[m]).contains(a);
                    if m < i {
                        assert(upto[m] == next[m]);
                    }
                }
                if triggered(upto, verifiers@).contains(a) && !verifiers@.contains(a) {
                    let m = choose|m: int|
                        0 <= m < upto.len() && addresses_in(#[trigger] upto[m]).contains(a);
                    assert(next[m] == upto[m]);
                }
                if addresses_in(key@).contains(a) {
                    assert(next[i as int] == key@);
                }
            }
            assert(out@ =~= triggered(next, verifiers@));
        }
        i = i + 1;
    }
    assert(writes.keys().take(i as int) =~= writes.keys());
    out
}

/// One run of the predicate of one address over one transaction: how deep it
/// may go, what it has left of its budget, and its verdict once it has one.
pub struct Invocation {
    address: Address,
    depth: u32,
    limiter: Limiter,
    verdict: Option<Outcome>,
}

impl Invocation {
    /// The address whose predicate this invocation runs.
    pub closed spec fn address(self) -> Seq<u8> {
        self.address@
    }

    /// How many evaluations deep the predicate may go, its own included.
    pub closed spec fn depth(self) -> nat {
        self.depth as nat
    }

    /// What the invocation has left of its budget.
    pub closed spec fn limiter(self) -> Limiter {
        self.limiter
    }

    /// What the predicate said, once it has said it.
    pub closed spec fn verdict(self) -> Option<Outcome> {
        self.verdict
    }

    /// What the predicate of this invocation says of the transaction that
    /// submitted `tx_data`, and what it leaves of the budget. The predicate is
    /// the one whose reference was stored for the address before the
    /// transaction; an address without one has nothing that could accept.
    pub open spec fn judgement(self, world: World, tx_data: Seq<u8>) -> (Outcome, Limiter) {
        match value_in(world.pre, predicate_key_of(self.address())) {
            Some(reference) => evaluated(world, reference, tx_data, self.limiter(), self.depth()),
            None => (Outcome::Failed(Error::LogicError(Fault::NoPredicate)), self.limiter()),
        }
    }

    /// An invocation that has not run yet.
    pub fn new(address: Address, limits: Limits) -> (out: Self)
        ensures
            out.address() == address@,
            out.depth() == limits.depth,
            out.limiter() == fresh(limits),
            out.verdict() is None,
    {
        Invocation {
            address,
            depth: limits.depth,
            limiter: Limiter::new(limits.budget),
            verdict: None,
        }
    }

    /// Runs the predicate, and returns what it says. An invocation that has
    /// its verdict is over: it returns that verdict, reads nothing, evaluates
    /// nothing, and consumes nothing.
    pub fn run(&mut self, registry: &Registry, ctx: &VpCtx, tx_data: &[u8]) -> (out: Outcome)
        ensures
            final(self).address() == old(self).address(),
            final(self).depth() == old(self).depth(),
            final(self).verdict() == Some(out),
            old(self).verdict() matches Some(said) ==> out == said && final(self).limiter()
                == old(self).limiter(),
            old(self).verdict() is None ==> (out, final(self).limiter()) == old(self).judgement(
                world_of(registry, ctx),
                tx_data@,
            ),
    {
        match self.verdict {
            Some(said) => {
                return said;
            },
            None => {},
        }
        let key: Key = predicate_key(&self.address);
        let out: Outcome = match ctx.read_pre(&key) {
            Some(reference) => {
                let mut limiter: Limiter = self.limiter;
                let said = eval(
                    registry,
                    ctx,
                    &mut limiter,
                    self.depth,
                    reference.as_slice(),
                    tx_data,
                );
                self.limiter = limiter;
                said
            },
            None => Outcome::Failed(Error::LogicError(Fault::NoPredicate)),
        };
        self.verdict = Some(out);
        out
    }

    /// What the predicate said, once it has said it.
    pub fn outcome(&self) -> (out: Option<Outcome>)
        ensures
            out == self.verdict(),
    {
        self.verdict
    }

    /// What the invocation has left of its budget.
    pub fn remaining(&self) -> (out: Limiter)
        ensures
            out == self.limiter(),
    {
        self.limiter
    }
}

/// Whether the predicate of every one of `addresses` accepts the transaction
/// that submitted `tx_data`. Each predicate has a budget of its own. In which
/// order they are asked makes no difference.
pub fn validate_all(
    registry: &Registry,
    ctx: &VpCtx,
    limits: Limits,
    addresses: &AddressSet,
    tx_data: &[u8],
) -> (out: bool)
    ensures
        out == all_accept(world_of(registry, ctx), addresses@, tx_data@, limits),
{
    let n: usize = addresses.len();
    let ghost world = world_of(registry, ctx);
    let mut i: usize = 0;
    while i < n
        invariant
            i <= n == addresses.items().len(),
            addresses.wf(),
            world == world_of(registry, ctx),
            forall|m: int|
                0 <= m < i ==> (#[trigger] verdict_of(
                    world,
                    addresses.items()[m],
                    tx_data@,
                    limits,
                )).0 == Outcome::Accept,
        decreases n - i,
    {
        let address: &Address = addresses.get(i);
        let mut invocation = Invocation::new(address.clone(), limits);
        match invocation.run(registry, ctx, tx_data) {
            Outcome::Accept => {},
            _ => {
                assert(verdict_of(world, address@, tx_data@, limits).0 != Outcome::Accept);
                return false;
            },
        }
        i = i + 1;
    }
    proof {
        addresses.lemma_items();
        assert forall|a: Seq<u8>| addresses@.contains(a) implies (#[trigger] verdict_of(
            world,
            a,
            tx_data@,
            limits,
        )).0 == Outcome::Accept by {
            assert(addresses.items().contains(a));
            let m = choose|m: int| 0 <= m < addresses.items().len() && addresses.items()[m] == a;
            assert(verdict_of(world, addresses.items()[m], tx_data@, limits).0 == Outcome::Accept);
        }
    }
    true
}

/// One attempt to apply a transaction. The attempt holds the storage that it
/// works on from its start to its end, so that the body and the predicates
/// see one and the same state.
pub struct Attempt {
    phase: Phase,
    storage: Storage,
    submitted: Vec<u8>,
    envelope: Option<SignedEnvelope>,
    writes: WriteSet,
    verifiers: AddressSet,
    cause: Option<Cause>,
}

impl Attempt {
    /// Where the attempt stands.
    pub closed spec fn phase(self) -> Phase {
        self.phase
    }

    /// Storage as it stands: as it was handed over, until the attempt is
    /// committed.
    pub closed spec fn storage(self) -> Values {
        self.storage@
    }

    /// The bytes that were submitted.
    pub closed spec fn submitted(self) -> Seq<u8> {
        self.submitted@
    }

    /// The envelope, once it is decoded.
    pub closed spec fn envelope(self) -> Option<EnvelopeView> {
        match self.envelope {
            Some(e) => Some(e@),
            None => None,
        }
    }

    /// Whether the envelope is decoded and carries a payload.
    pub open spec fn has_payload(self) -> bool {
        self.envelope() matches Some(e) && e.payload is Some
    }

    /// What the body staged, while the predicates have not judged it.
    pub closed spec fn staged(self) -> Staged {
        self.writes@
    }

    /// The keys that the body changed, in the order of keys.
    pub closed spec fn changed(self) -> Seq<KeyView> {
        self.writes.keys()
    }

    /// The addresses that the body named as verifiers.
    pub closed spec fn verifiers(self) -> Set<Seq<u8>> {
        self.verifiers@
    }

    /// Why the attempt was rolled back, if it was.
    pub closed spec fn cause(self) -> Option<Cause> {
        self.cause
    }

    /// Whether the changed keys are the keys of the staged writes. They are
    /// in every attempt that this module hands out.
    pub closed spec fn consistent(self) -> bool {
        self.writes.wf()
    }

    /// What the changed keys are to the staged writes: the keys for which
    /// something is staged, each once, in the order of keys.
    pub proof fn lemma_changed(self)
        requires
            self.consistent(),
        ensures
            ascending(self.changed()),
            forall|k: KeyView| self.staged().dom().contains(k) <==> self.changed().contains(k),
    {
        self.writes.lemma_keys();
    }

    /// The attempt after a step that leaves everything but the phase and the
    /// cause as it was.
    pub open spec fn moved(self, before: Attempt, phase: Phase, cause: Option<Cause>) -> bool {
        &&& self.phase() == phase
        &&& self.cause() == cause
        &&& self.storage() == before.storage()
        &&& self.submitted() == before.submitted()
        &&& self.envelope() == before.envelope()
        &&& self.staged() == before.staged()
        &&& self.changed() == before.changed()
        &&& self.verifiers() == before.verifiers()
        &&& self.consistent() == before.consistent()
    }

    /// What the predicates of an attempt in its fourth phase see.
    pub open spec fn world(self, registry: &Registry) -> World {
        World {
            names: registry@,
            pre: self.storage(),
            post: overlay(self.storage(), self.staged()),
            changed: self.changed(),
        }
    }

    /// An attempt to apply the transaction that was submitted as `submitted`
    /// to `storage`.
    pub fn new(storage: Storage, submitted: Vec<u8>) -> (out: Self)
        ensures
            out.phase() == Phase::Decoding,
            out.storage() == storage@,
            out.submitted() == submitted@,
            out.envelope() is None,
            out.staged() == Staged::empty(),
            out.changed() == Seq::<KeyView>::empty(),
            out.verifiers() == Set::<Seq<u8>>::empty(),
            out.cause() is None,
            out.consistent(),
    {
        Attempt {
            phase: Phase::Decoding,
            storage,
            submitted,
            envelope: None,
            writes: WriteSet::new(),
            verifiers: AddressSet::new(),
            cause: None,
        }
    }

    /// Where the attempt stands.
    pub fn current(&self) -> (out: Phase)
        ensures
            out == self.phase(),
    {
        self.phase
    }

    /// Why the attempt was rolled back, if it was.
    pub fn rolled_back_for(&self) -> (out: Option<Cause>)
        ensures
            out == self.cause(),
    {
        self.cause
    }

    /// Storage as it stands.
    pub fn look(&self) -> (out: &Storage)
        ensures
            out@ == self.storage(),
    {
        &self.storage
    }

    /// Ends the attempt, wherever it stands, and hands storage back. Writes
    /// that were staged and not committed are dropped with the attempt.
    pub fn close(self) -> (out: Storage)
        ensures
            out@ == self.storage(),
    {
        self.storage
    }

    /// Decodes the envelope. Bytes that are no envelope end the attempt. In
    /// any phase but the first nothing happens.
    pub fn decode(&mut self)
        ensures
            old(self).phase() != Phase::Decoding ==> *final(self) == *old(self),
            old(self).phase() == Phase::Decoding ==> match decoded(old(self).submitted()) {
                Some(e) => final(self).envelope() == Some(e) && final(self).phase()
                    == Phase::Verifying && final(self).cause() is None,
                None => final(self).envelope() is None && final(self).phase()
                    == Phase::RolledBack && final(self).cause() == Some(Cause::Undecodable),
            },
            final(self).storage() == old(self).storage(),
            final(self).submitted() == old(self).submitted(),
            final(self).staged() == old(self).staged(),
            final(self).changed() == old(self).changed(),
            final(self).verifiers() == old(self).verifiers(),
            final(self).consistent() == old(self).consistent(),
    {
        match self.phase {
            Phase::Decoding => {},
            _ => {
                return ;
            },
        }
        match SignedEnvelope::decode(self.submitted.as_slice()) {
            Ok(envelope) => {
                self.envelope = Some(envelope);
                self.phase = Phase::Verifying;
                self.cause = None;
            },
            Err(_) => {
                self.envelope = None;
                self.phase = Phase::RolledBack;
                self.cause = Some(Cause::Undecodable);
            },
        }
    }

    /// The envelope whose signature is to be checked: there is one while the
    /// attempt is verifying, and only where it carries a payload.
    pub fn to_verify(&self) -> (out: Option<&SignedEnvelope>)
        ensures
            match out {
                Some(e) => self.phase() == Phase::Verifying && self.envelope() == Some(e@)
                    && e@.payload is Some,
                None => self.phase() != Phase::Verifying || !self.has_payload(),
            },
    {
        match self.phase {
            Phase::Verifying => {},
            _ => {
                return None;
            },
        }
        match &self.envelope {
            Some(e) => match e.payload {
                Some(_) => Some(e),
                None => None,
            },
            None => None,
        }
    }

    /// Takes note of whether the signature verifies over the payload. A
    /// signature that does not ends the attempt: the payload is never run. An
    /// envelope without a payload has nothing to verify, and goes on. In any
    /// phase but the second nothing happens.
    pub fn verified(&mut self, signature_holds: bool)
        ensures
            old(self).phase() != Phase::Verifying ==> *final(self) == *old(self),
            old(self).phase() == Phase::Verifying && (signature_holds || !old(self).has_payload())
                ==> final(self).moved(*old(self), Phase::Executing, None),
            old(self).phase() == Phase::Verifying && !signature_holds && old(self).has_payload()
                ==> final(self).moved(*old(self), Phase::RolledBack, Some(Cause::BadSignature)),
    {
        match self.phase {
            Phase::Verifying => {},
            _ => {
                return ;
            },
        }
        let has_payload: bool = match &self.envelope {
            Some(e) => e.payload.is_some(),
            None => false,
        };
        if signature_holds || !has_payload {
            self.phase = Phase::Executing;
            self.cause = None;
        } else {
            self.phase = Phase::RolledBack;
            self.cause = Some(Cause::BadSignature);
        }
    }

    /// Runs the body `body` on the submitted bytes, on top of storage and out
    /// of a budget of its own. Where the body fails or exceeds its budget the
    /// attempt ends and nothing that it staged is kept. In any phase but the
    /// third nothing happens.
    pub fn execute(&mut self, body: TxBody, limits: Limits)
        ensures
            old(self).phase() != Phase::Executing ==> *final(self) == *old(self),
            old(self).phase() == Phase::Executing ==> match applied(
                body,
                old(self).storage(),
                Staged::empty(),
                fresh(limits),
                old(self).submitted(),
            ).0 {
                Ok(()) => {
                    &&& final(self).phase() == Phase::Validating
                    &&& final(self).cause() is None
                    &&& final(self).staged() == applied(
                        body,
                        old(self).storage(),
                        Staged::empty(),
                        fresh(limits),
                        old(self).submitted(),
                    ).1
                },
                Err(e) => {
                    &&& final(self).phase() == Phase::RolledBack
                    &&& final(self).cause() == Some(Cause::Execution(e))
                    &&& final(self).staged() == Staged::empty()
                },
            },
            old(self).phase() == Phase::Executing ==> final(self).verifiers() == Set::<
                Seq<u8>,
            >::empty() && final(self).consistent(),
            final(self).storage() == old(self).storage(),
            final(self).submitted() == old(self).submitted(),
            final(self).envelope() == old(self).envelope(),
    {
        match self.phase {
            Phase::Executing => {},
            _ => {
                return ;
            },
        }
        let mut ctx = TxCtx::new(&self.storage);
        let mut limiter = Limiter::new(limits.budget);
        match apply_tx(body, &mut ctx, &mut limiter, self.submitted.as_slice()) {
            Ok(()) => {
                let (writes, verifiers) = ctx.finish();
                self.writes = writes;
                self.verifiers = verifiers;
                self.phase = Phase::Validating;
                self.cause = None;
            },
            Err(e) => {
                self.writes = WriteSet::new();
                self.verifiers = AddressSet::new();
                self.phase = Phase::RolledBack;
                self.cause = Some(Cause::Execution(e));
            },
        }
    }

    /// Lets the predicate of every address that the transaction concerns judge
    /// it. Where all accept, the staged writes are applied to storage, all at
    /// once, and the attempt is committed. Where one does not, storage stays
    /// as it was and the attempt is rolled back. Either way the attempt holds
    /// no writes afterwards. In any phase but the fourth nothing happens.
    pub fn validate(&mut self, registry: &Registry, limits: Limits)
        ensures
            old(self).phase() != Phase::Validating ==> *final(self) == *old(self),
            old(self).phase() == Phase::Validating ==> if all_accept(
                old(self).world(registry),
                triggered(old(self).changed(), old(self).verifiers()),
                old(self).submitted(),
                limits,
            ) {
                &&& final(self).phase() == Phase::Committed
                &&& final(self).cause() is None
                &&& final(self).storage() == overlay(old(self).storage(), old(self).staged())
            } else {
                &&& final(self).phase() == Phase::RolledBack
                &&& final(self).cause() == Some(Cause::Refused)
                &&& final(self).storage() == old(self).storage()
            },
            old(self).phase() == Phase::Validating ==> final(self).staged() == Staged::empty()
                && final(self).changed() == Seq::<KeyView>::empty() && final(self).consistent(),
            final(self).submitted() == old(self).submitted(),
            final(self).envelope() == old(self).envelope(),
            final(self).verifiers() == old(self).verifiers(),
    {
        match self.phase {
            Phase::Validating => {},
            _ => {
                return ;
            },
        }
        let accepted: bool = {
            let ctx = VpCtx::new(&self.storage, &self.writes, &self.verifiers);
            let addresses = triggered_addresses(&self.writes, &self.verifiers);
            validate_all(registry, &ctx, limits, &addresses, self.submitted.as_slice())
        };
        if accepted {
            self.storage.apply(&self.writes);
            self.phase = Phase::Committed;
            self.cause = None;
        } else {
            self.phase = Phase::RolledBack;
            self.cause = Some(Cause::Refused);
        }
        self.writes = WriteSet::new();
    }
}

} // verus!
