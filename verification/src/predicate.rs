//! Validity predicates and their nested evaluation.
//!
//! A predicate is named by a reference, which a [`Registry`] resolves to a
//! behaviour. A predicate may evaluate another one: the evaluation sees the
//! same state as its caller, draws on the same budget, and may go only so deep.

use vstd::prelude::*;
use crate::context::VpCtx;
use crate::error::{Error, Fault};
use crate::key::{parsed, Key, KeyView};
use crate::limiter::Limiter;
use crate::storage::{value_in, Values};
use crate::token::{supply_verdict, vp_token};
use crate::wire::{parse_frame, put_frame, read_sole_frame, same_bytes, sole_frame, u64_of};
use crate::wire::{Reader, FRAME_MAX};
use crate::wire::{frame, lemma_frame_round_trip};

verus! {

/// What every evaluation of a predicate costs, before the predicate does anything.
pub const EVAL_COST: u64 = 1;

/// The fewest bytes that the allocating predicate looks at.
pub const PROBE: u64 = 8;

/// What a predicate says of a transaction.
#[derive(Clone, Copy, Debug, PartialEq, Eq, Structural)]
pub enum Outcome {
    /// The transaction may stand.
    Accept,
    /// The transaction may not stand.
    Reject,
    /// The predicate could not judge.
    Failed(Error),
}

/// The behaviours that a reference can name.
#[derive(Clone, Copy, Debug, PartialEq, Eq, Structural)]
pub enum VpBody {
    /// Accepts every transaction.
    AlwaysTrue,
    /// Rejects every transaction.
    AlwaysFalse,
    /// Evaluates the predicate that its input names, on the input given with
    /// it, and says what that predicate says.
    Eval,
    /// Allocates as many bytes as its input says, and accepts.
    MemoryLimit,
    /// Reads the key that its input is the text of from the state before the
    /// transaction, and accepts where it holds a framed value.
    ReadStorageKey,
    /// Holds the supply of every token constant.
    Token,
}

/// A request to evaluate a predicate: the reference that names it, and the
/// input to hand to it.
#[derive(Clone, Debug, PartialEq, Eq)]
pub struct EvalRequest {
    /// What names the predicate.
    pub vp_reference: Vec<u8>,
    /// What the predicate is given.
    pub input: Vec<u8>,
}

/// The request that `bytes` stand for: two frames and nothing else.
pub open spec fn request_decoded(bytes: Seq<u8>) -> Option<(Seq<u8>, Seq<u8>)> {
    match parse_frame(bytes) {
        Some((reference, after)) => match sole_frame(after) {
            Some(input) => Some((reference, input)),
            None => None,
        },
        None => None,
    }
}

impl EvalRequest {
    /// The bytes that stand for the request, or `None` where the reference or
    /// the input is too long to be framed.
    pub fn encode(&self) -> (out: Option<Vec<u8>>)
        ensures
            out is Some <==> self.vp_reference@.len() <= FRAME_MAX && self.input@.len()
                <= FRAME_MAX,
            out matches Some(bytes) ==> bytes@ == frame(self.vp_reference@) + frame(self.input@)
                && request_decoded(bytes@) == Some((self.vp_reference@, self.input@)),
    {
        let mut out: Vec<u8> = Vec::new();
        if !put_frame(&mut out, self.vp_reference.as_slice()) {
            return None;
        }
        if !put_frame(&mut out, self.input.as_slice()) {
            return None;
        }
        proof {
            let empty = Seq::<u8>::empty();
            assert(out@ =~= frame(self.vp_reference@) + frame(self.input@));
            lemma_frame_round_trip(self.vp_reference@, frame(self.input@));
            assert(frame(self.input@) + empty =~= frame(self.input@));
            lemma_frame_round_trip(self.input@, empty);
        }
        Some(out)
    }

    /// The request that `bytes` stand for.
    pub fn decode(bytes: &[u8]) -> (out: Result<EvalRequest, Error>)
        ensures
            match request_decoded(bytes@) {
                Some((reference, input)) => out is Ok && out->Ok_0.vp_reference@ == reference
                    && out->Ok_0.input@ == input,
                None => out == Err::<EvalRequest, Error>(Error::DecodeError),
            },
    {
        let mut reader = Reader::new(bytes);
        let vp_reference: Vec<u8> = match reader.frame() {
            Some(r) => r,
            None => {
                return Err(Error::DecodeError);
            },
        };
        let input: Vec<u8> = match reader.frame() {
            Some(i) => i,
            None => {
                return Err(Error::DecodeError);
            },
        };
        if !reader.is_done() {
            return Err(Error::DecodeError);
        }
        Ok(EvalRequest { vp_reference, input })
    }
}

/// One name of a behaviour.
pub struct Entry {
    /// The reference.
    pub reference: Vec<u8>,
    /// The behaviour that it names.
    pub body: VpBody,
}

/// The behaviours that references name, as contracts see them.
pub type Names = Seq<(Seq<u8>, VpBody)>;

/// The behaviour that `reference` names: that of the first entry with this reference.
pub open spec fn resolved(names: Names, reference: Seq<u8>) -> Option<VpBody>
    decreases names.len(),
{
    if names.len() == 0 {
        None
    } else if names[0].0 == reference {
        Some(names[0].1)
    } else {
        resolved(names.drop_first(), reference)
    }
}

/// The behaviours that references name. It is handed to whatever evaluates
/// predicates; there is no registry but the one that is passed.
pub struct Registry {
    entries: Vec<Entry>,
}

impl View for Registry {
    type V = Names;

    closed spec fn view(&self) -> Names {
        Seq::new(self.entries@.len(), |i: int| (self.entries@[i].reference@, self.entries@[i].body))
    }
}

impl Registry {
    /// A registry in which no reference names anything.
    pub fn new() -> (out: Self)
        ensures
            out@ == Names::empty(),
    {
        let out = Registry { entries: Vec::new() };
        assert(out@ =~= Names::empty());
        out
    }

    /// Lets `reference` name `body`, unless an earlier entry has the reference already.
    pub fn register(&mut self, reference: Vec<u8>, body: VpBody)
        ensures
            final(self)@ == old(self)@.push((reference@, body)),
    {
        self.entries.push(Entry { reference, body });
        assert(self@ =~= old(self)@.push((reference@, body)));
    }

    /// The behaviour that `reference` names.
    pub fn resolve(&self, reference: &[u8]) -> (out: Option<VpBody>)
        ensures
            out == resolved(self@, reference@),
    {
        let mut i: usize = 0;
        assert(self@.skip(0) =~= self@);
        while i < self.entries.len()
            invariant
                i <= self.entries@.len() == self@.len(),
                resolved(self@, reference@) == resolved(self@.skip(i as int), reference@),
            decreases self.entries@.len() - i,
        {
            let entry: &Entry = &self.entries[i];
            let ghost rest = self@.skip(i as int);
            assert(rest[0] == (entry.reference@, entry.body));
            assert(rest.drop_first() =~= self@.skip(i + 1));
            if same_bytes(entry.reference.as_slice(), reference) {
                return Some(entry.body);
            }
            i = i + 1;
        }
        None
    }
}

/// All that an evaluation can depend on besides its input, its budget and
/// its depth.
pub struct World {
    /// The behaviours that references name.
    pub names: Names,
    /// Storage before the transaction.
    pub pre: Values,
    /// Storage with the transaction's writes applied.
    pub post: Values,
    /// The keys that the transaction wrote or deleted, in the order of keys.
    pub changed: Seq<KeyView>,
}

/// The world that a predicate sees through `ctx` when `registry` resolves its references.
pub open spec fn world_of(registry: &Registry, ctx: &VpCtx) -> World {
    World { names: registry@, pre: ctx.pre(), post: ctx.post(), changed: ctx.changed() }
}

/// What becomes of an allocation of as many bytes as `input` says, and of the
/// budget that pays for it. The input is eight bytes that stand for a number.
/// The bytes are charged first; whoever allocates then looks at the first
/// [`PROBE`] of them, and fails where there are fewer.
pub open spec fn allocated(input: Seq<u8>, limiter: Limiter) -> (Result<(), Error>, Limiter) {
    if input.len() != 8 {
        (Err(Error::DecodeError), limiter)
    } else if !limiter.admits(u64_of(input)) {
        (Err(Error::ResourceExceeded), limiter.charged(u64_of(input)))
    } else if u64_of(input) < PROBE {
        (Err(Error::LogicError(Fault::ShortBuffer)), limiter.charged(u64_of(input)))
    } else {
        (Ok(()), limiter.charged(u64_of(input)))
    }
}

/// What the behaviour `body` says of `input`, and what it leaves of the budget.
pub open spec fn judged(
    body: VpBody,
    world: World,
    input: Seq<u8>,
    limiter: Limiter,
    depth: nat,
) -> (Outcome, Limiter)
    decreases depth, 1nat,
{
    match body {
        VpBody::AlwaysTrue => (Outcome::Accept, limiter),
        VpBody::AlwaysFalse => (Outcome::Reject, limiter),
        VpBody::Eval => match request_decoded(input) {
            Some((reference, inner)) => evaluated(world, reference, inner, limiter, depth),
            None => (Outcome::Failed(Error::DecodeError), limiter),
        },
        VpBody::MemoryLimit => match allocated(input, limiter).0 {
            Ok(()) => (Outcome::Accept, allocated(input, limiter).1),
            Err(e) => (Outcome::Failed(e), allocated(input, limiter).1),
        },
        VpBody::ReadStorageKey => match parsed(input) {
            Some(k) => match value_in(world.pre, k) {
                Some(v) => if sole_frame(v) is Some {
                    (Outcome::Accept, limiter)
                } else {
                    (Outcome::Failed(Error::DecodeError), limiter)
                },
                None => (Outcome::Failed(Error::LogicError(Fault::MissingValue)), limiter),
            },
            None => (Outcome::Failed(Error::InvalidKeyFormat), limiter),
        },
        VpBody::Token => match supply_verdict(world.changed, world.pre, world.post) {
            Ok(balanced) => if balanced {
                (Outcome::Accept, limiter)
            } else {
                (Outcome::Reject, limiter)
            },
            Err(e) => (Outcome::Failed(e), limiter),
        },
    }
}

/// What the predicate that `reference` names says of `input` when it may go
/// `depth` evaluations deep, and what it leaves of the budget.
///
/// With no depth left nothing is evaluated. Else the evaluation is paid for
/// first, then the reference is resolved, then the behaviour judges.
pub open spec fn evaluated(
    world: World,
    reference: Seq<u8>,
    input: Seq<u8>,
    limiter: Limiter,
    depth: nat,
) -> (Outcome, Limiter)
    decreases depth, 0nat,
{
    if depth == 0 {
        (Outcome::Failed(Error::RecursionLimitExceeded), limiter)
    } else if !limiter.admits(EVAL_COST) {
        (Outcome::Failed(Error::ResourceExceeded), limiter.charged(EVAL_COST))
    } else {
        match resolved(world.names, reference) {
            Some(body) => judged(
                body,
                world,
                input,
                limiter.charged(EVAL_COST),
                (depth - 1) as nat,
            ),
            None => (
                Outcome::Failed(Error::LogicError(Fault::UnknownPredicate)),
                limiter.charged(EVAL_COST),
            ),
        }
    }
}

/// Lets the behaviour `body` judge `input`.
pub fn judge(
    body: VpBody,
    registry: &Registry,
    ctx: &VpCtx,
    limiter: &mut Limiter,
    depth: u32,
    input: &[u8],
) -> (out: Outcome)
    ensures
        (out, *final(limiter)) == judged(
            body,
            world_of(registry, ctx),
            input@,
            *old(limiter),
            depth as nat,
        ),
    decreases depth, 2nat,
{
    match body {
        VpBody::AlwaysTrue => vp_always_true(),
        VpBody::AlwaysFalse => vp_always_false(),
        VpBody::Eval => vp_eval(registry, ctx, limiter, depth, input),
        VpBody::MemoryLimit => vp_memory_limit(limiter, input),
        VpBody::ReadStorageKey => vp_read_storage_key(ctx, input),
        VpBody::Token => match vp_token(ctx) {
            Ok(balanced) => if balanced {
                accept()
            } else {
                reject()
            },
            Err(e) => Outcome::Failed(e),
        },
    }
}

/// The predicate that evaluates the predicate that `input` asks for, and says
/// what that predicate says. The input is a request: a reference and the
/// input to hand on.
pub fn vp_eval(
    registry: &Registry,
    ctx: &VpCtx,
    limiter: &mut Limiter,
    depth: u32,
    input: &[u8],
) -> (out: Outcome)
    ensures
        (out, *final(limiter)) == judged(
            VpBody::Eval,
            world_of(registry, ctx),
            input@,
            *old(limiter),
            depth as nat,
        ),
    decreases depth, 1nat,
{
    match EvalRequest::decode(input) {
        Ok(request) => eval(
            registry,
            ctx,
            limiter,
            depth,
            request.vp_reference.as_slice(),
            request.input.as_slice(),
        ),
        Err(e) => Outcome::Failed(e),
    }
}

/// Evaluates the predicate that `reference` names on `input`, against the
/// state that `ctx` shows, out of the budget in `limiter`, at most `depth`
/// evaluations deep.
pub fn eval(
    registry: &Registry,
    ctx: &VpCtx,
    limiter: &mut Limiter,
    depth: u32,
    reference: &[u8],
    input: &[u8],
) -> (out: Outcome)
    ensures
        (out, *final(limiter)) == evaluated(
            world_of(registry, ctx),
            reference@,
            input@,
            *old(limiter),
            depth as nat,
        ),
    decreases depth, 0nat,
{
    if depth == 0 {
        return Outcome::Failed(Error::RecursionLimitExceeded);
    }
    match limiter.charge(EVAL_COST) {
        Ok(()) => {},
        Err(e) => {
            return Outcome::Failed(e);
        },
    }
    match registry.resolve(reference) {
        Some(body) => judge(body, registry, ctx, limiter, depth - 1, input),
        None => Outcome::Failed(Error::LogicError(Fault::UnknownPredicate)),
    }
}

impl<'a> VpCtx<'a> {
    /// Evaluates the predicate that `reference` names on `input`, against the
    /// state that this context shows. The work is that of [`eval`].
    pub fn eval(
        &self,
        registry: &Registry,
        limiter: &mut Limiter,
        depth: u32,
        reference: &[u8],
        input: &[u8],
    ) -> (out: Outcome)
        ensures
            (out, *final(limiter)) == evaluated(
                world_of(registry, self),
                reference@,
                input@,
                *old(limiter),
                depth as nat,
            ),
    {
        eval(registry, self, limiter, depth, reference, input)
    }
}

/// The verdict that lets a transaction stand.
pub fn accept() -> (out: Outcome)
    ensures
        out == Outcome::Accept,
{
    Outcome::Accept
}

/// The verdict that does not let a transaction stand.
pub fn reject() -> (out: Outcome)
    ensures
        out == Outcome::Reject,
{
    Outcome::Reject
}

/// The predicate that accepts every transaction.
pub fn vp_always_true() -> (out: Outcome)
    ensures
        out == Outcome::Accept,
{
    accept()
}

/// The predicate that rejects every transaction.
pub fn vp_always_false() -> (out: Outcome)
    ensures
        out == Outcome::Reject,
{
    reject()
}

/// Allocates as many bytes as `input` says, out of the budget in `limiter`.
pub fn allocate(limiter: &mut Limiter, input: &[u8]) -> (out: Result<(), Error>)
    ensures
        (out, *final(limiter)) == allocated(input@, *old(limiter)),
{
    if input.len() != 8 {
        return Err(Error::DecodeError);
    }
    let mut reader = Reader::new(input);
    let len: u64 = match reader.u64() {
        Some(n) => n,
        None => {
            return Err(Error::DecodeError);
        },
    };
    limiter.charge(len)?;
    if len < PROBE {
        return Err(Error::LogicError(Fault::ShortBuffer));
    }
    Ok(())
}

/// The predicate that allocates as many bytes as `input` says, and accepts
/// where that goes well.
pub fn vp_memory_limit(limiter: &mut Limiter, input: &[u8]) -> (out: Outcome)
    ensures
        out == match allocated(input@, *old(limiter)).0 {
            Ok(()) => Outcome::Accept,
            Err(e) => Outcome::Failed(e),
        },
        *final(limiter) == allocated(input@, *old(limiter)).1,
{
    match allocate(limiter, input) {
        Ok(()) => accept(),
        Err(e) => Outcome::Failed(e),
    }
}

/// The predicate that reads the key whose text is `input` from the state
/// before the transaction. It accepts where the key holds one frame, and
/// fails where it holds nothing or anything else.
pub fn vp_read_storage_key(ctx: &VpCtx, input: &[u8]) -> (out: Outcome)
    ensures
        out == match parsed(input@) {
            Some(k) => match value_in(ctx.pre(), k) {
                Some(v) => if sole_frame(v) is Some {
                    Outcome::Accept
                } else {
                    Outcome::Failed(Error::DecodeError)
                },
                None => Outcome::Failed(Error::LogicError(Fault::MissingValue)),
            },
            None => Outcome::Failed(Error::InvalidKeyFormat),
        },
{
    let key: Key = match Key::parse(input) {
        Ok(k) => k,
        Err(e) => {
            return Outcome::Failed(e);
        },
    };
    match ctx.read_pre(&key) {
        Some(value) => match read_sole_frame(value.as_slice()) {
            Some(_) => accept(),
            None => Outcome::Failed(Error::DecodeError),
        },
        None => Outcome::Failed(Error::LogicError(Fault::MissingValue)),
    }
}

/// A behaviour never gives budget back, and trips the limiter exactly where
/// it runs out of budget.
pub proof fn lemma_judged_limits(
    body: VpBody,
    world: World,
    input: Seq<u8>,
    limiter: Limiter,
    depth: nat,
)
    ensures
        judged(body, world, input, limiter, depth).1.remaining <= limiter.remaining,
        limiter.tripped ==> judged(body, world, input, limiter, depth).1.tripped,
        judged(body, world, input, limiter, depth).0 == Outcome::Failed(Error::ResourceExceeded)
            ==> judged(body, world, input, limiter, depth).1.tripped,
        !limiter.tripped && judged(body, world, input, limiter, depth).0 != Outcome::Failed(
            Error::ResourceExceeded,
        ) ==> !judged(body, world, input, limiter, depth).1.tripped,
    decreases depth, 1nat,
{
    match body {
        VpBody::Eval => match request_decoded(input) {
            Some((reference, inner)) => lemma_eval_limits(world, reference, inner, limiter, depth),
            None => {},
        },
        VpBody::Token => {
            supply_verdict_is_decode_error(world.changed, world.pre, world.post);
        },
        _ => {},
    }
}

/// An evaluation never gives budget back, however deep it goes: what is left
/// after it is at most what was left before it, and less where the evaluation
/// could be paid for. It trips the limiter exactly where it runs out of
/// budget, and a tripped limiter stays tripped.
pub proof fn lemma_eval_limits(
    world: World,
    reference: Seq<u8>,
    input: Seq<u8>,
    limiter: Limiter,
    depth: nat,
)
    ensures
        evaluated(world, reference, input, limiter, depth).1.remaining <= limiter.remaining,
        depth > 0 && limiter.admits(EVAL_COST) ==> evaluated(
            world,
            reference,
            input,
            limiter,
            depth,
        ).1.remaining < limiter.remaining,
        limiter.tripped ==> evaluated(world, reference, input, limiter, depth).1.tripped,
        evaluated(world, reference, input, limiter, depth).0 == Outcome::Failed(
            Error::ResourceExceeded,
        ) ==> evaluated(world, reference, input, limiter, depth).1.tripped,
        !limiter.tripped && evaluated(world, reference, input, limiter, depth).0
            != Outcome::Failed(Error::ResourceExceeded) ==> !evaluated(
            world,
            reference,
            input,
            limiter,
            depth,
        ).1.tripped,
    decreases depth, 0nat,
{
    if depth > 0 && limiter.admits(EVAL_COST) {
        match resolved(world.names, reference) {
            Some(body) => lemma_judged_limits(
                body,
                world,
                input,
                limiter.charged(EVAL_COST),
                (depth - 1) as nat,
            ),
            None => {},
        }
    }
}

/// The supply predicate fails in one way only.
proof fn supply_verdict_is_decode_error(keys: Seq<KeyView>, pre: Values, post: Values)
    ensures
        supply_verdict(keys, pre, post) matches Err(e) ==> e == Error::DecodeError,
{
}

/// What a behaviour says does not depend on the budget, unless the budget runs out.
pub proof fn lemma_judged_whatever_budget(
    body: VpBody,
    world: World,
    input: Seq<u8>,
    one: Limiter,
    other: Limiter,
    depth: nat,
)
    ensures
        ({
            let a = judged(body, world, input, one, depth).0;
            let b = judged(body, world, input, other, depth).0;
            a == b || a == Outcome::Failed(Error::ResourceExceeded) || b == Outcome::Failed(
                Error::ResourceExceeded,
            )
        }),
    decreases depth, 1nat,
{
    match body {
        VpBody::Eval => match request_decoded(input) {
            Some((reference, inner)) => lemma_eval_whatever_budget(
                world,
                reference,
                inner,
                one,
                other,
                depth,
            ),
            None => {},
        },
        _ => {},
    }
}

/// What an evaluation says does not depend on the budget, unless the budget
/// runs out: two evaluations of one reference on one input against one state,
/// equally deep, say the same or one of them says that the budget was exceeded.
pub proof fn lemma_eval_whatever_budget(
    world: World,
    reference: Seq<u8>,
    input: Seq<u8>,
    one: Limiter,
    other: Limiter,
    depth: nat,
)
    ensures
        ({
            let a = evaluated(world, reference, input, one, depth).0;
            let b = evaluated(world, reference, input, other, depth).0;
            a == b || a == Outcome::Failed(Error::ResourceExceeded) || b == Outcome::Failed(
                Error::ResourceExceeded,
            )
        }),
    decreases depth, 0nat,
{
    if depth > 0 && one.admits(EVAL_COST) && other.admits(EVAL_COST) {
        match resolved(world.names, reference) {
            Some(body) => lemma_judged_whatever_budget(
                body,
                world,
                input,
                one.charged(EVAL_COST),
                other.charged(EVAL_COST),
                (depth - 1) as nat,
            ),
            None => {},
        }
    }
}

/// A predicate that evaluates one reference on one input twice, against the
/// same state and out of the budget that is left, is told the same both times.
/// The one case apart is a budget that covers the first evaluation and not the
/// second: the second then says that the budget was exceeded.
pub proof fn lemma_eval_repeatable(
    world: World,
    reference: Seq<u8>,
    input: Seq<u8>,
    limiter: Limiter,
    depth: nat,
)
    requires
        ({
            let first = evaluated(world, reference, input, limiter, depth);
            let second = evaluated(world, reference, input, first.1, depth);
            second.0 == Outcome::Failed(Error::ResourceExceeded) ==> first.0 == Outcome::Failed(
                Error::ResourceExceeded,
            )
        }),
    ensures
        ({
            let first = evaluated(world, reference, input, limiter, depth);
            let second = evaluated(world, reference, input, first.1, depth);
            second.0 == first.0
        }),
{
    let first = evaluated(world, reference, input, limiter, depth);
    lemma_eval_limits(world, reference, input, limiter, depth);
    lemma_eval_whatever_budget(world, reference, input, limiter, first.1, depth);
}

/// What comes of evaluating one reference on one input `times` times in a
/// row out of one budget, as long as each evaluation accepts.
pub open spec fn repeated(
    world: World,
    reference: Seq<u8>,
    input: Seq<u8>,
    limiter: Limiter,
    depth: nat,
    times: nat,
) -> (Outcome, Limiter)
    decreases times,
{
    if times == 0 {
        (Outcome::Accept, limiter)
    } else {
        let once = evaluated(world, reference, input, limiter, depth);
        if once.0 == Outcome::Accept {
            repeated(world, reference, input, once.1, depth, (times - 1) as nat)
        } else {
            once
        }
    }
}

/// Evaluating the allocating predicate again and again exhausts any budget
/// that does not cover all the evaluations together: no evaluation starts
/// from a fresh budget.
pub proof fn lemma_repeated_allocation(
    world: World,
    reference: Seq<u8>,
    input: Seq<u8>,
    limiter: Limiter,
    depth: nat,
    times: nat,
)
    requires
        depth >= 1,
        resolved(world.names, reference) == Some(VpBody::MemoryLimit),
        input.len() == 8,
        u64_of(input) >= PROBE,
        limiter.remaining < times * (EVAL_COST + u64_of(input)),
    ensures
        repeated(world, reference, input, limiter, depth, times).0 == Outcome::Failed(
            Error::ResourceExceeded,
        ),
    decreases times,
{
    let cost = EVAL_COST + u64_of(input);
    if times == 0 {
        assert(times * cost == 0) by (nonlinear_arith)
            requires
                times == 0,
        ;
    } else {
        let once = evaluated(world, reference, input, limiter, depth);
        if once.0 == Outcome::Accept {
            assert(once.1.remaining == limiter.remaining - cost);
            assert((times - 1) * cost == times * cost - cost) by (nonlinear_arith);
            lemma_repeated_allocation(
                world,
                reference,
                input,
                once.1,
                depth,
                (times - 1) as nat,
            );
        }
    }
}

} // verus!
