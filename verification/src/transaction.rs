//! The transaction bodies that a submitter can choose from.
//!
//! Each body is given the context of its transaction and the bytes that were
//! submitted with it. What it stages is a proposal: it takes effect only if
//! the transaction is committed.

use vstd::prelude::*;
use vstd::utf8::valid_utf8;
use crate::context::TxCtx;
use crate::envelope::{decoded, SignedEnvelope};
use crate::error::{Error, Fault};
use crate::key::{key_wf, parsed, valid_address, valid_text, Address, Key, KeyView, Segment};
use crate::key::SegmentView;
use crate::limiter::Limiter;
use crate::predicate::{allocate, allocated};
use crate::storage::{overlay, value_in, Staged};
use crate::token::{amount_of, balance_key, balance_key_of, decode_amount, transfer_decoded};
use crate::token::Transfer;
use crate::wire::{array_bytes, frame, put_frame, put_u32, put_u64, read_sole_frame};
use crate::wire::{sole_frame, u32_le, u64_le};

verus! {

/// The transaction bodies.
#[derive(Clone, Copy, Debug, PartialEq, Eq, Structural)]
pub enum TxBody {
    /// Does nothing.
    NoOp,
    /// Allocates as many bytes as the submitted bytes say.
    MemoryLimit,
    /// Sets three parameters of the ledger, as the code of a proposal would.
    ProposalCode,
    /// Reads the key that the submitted bytes are the text of.
    ReadStorageKey,
    /// Writes a fixed value to the key that the envelope's payload is the text of.
    WriteStorageKey,
    /// Credits the target of a transfer without debiting its source.
    MintTokens,
}

/// The value that [`tx_write_storage_key`] writes, before it is framed:
/// `arbitrary value`.
pub const ARBITRARY_VALUE: [u8; 15] = [
    97, 114, 98, 105, 116, 114, 97, 114, 121, 32, 118, 97, 108, 117, 101,
];

/// The identifier of the account that holds the rules of governance: `governance`.
pub const GOVERNANCE: [u8; 10] = [103, 111, 118, 101, 114, 110, 97, 110, 99, 101];

/// The identifier of the treasury's account: `treasury`.
pub const TREASURY: [u8; 8] = [116, 114, 101, 97, 115, 117, 114, 121];

/// The identifier of the account that holds the ledger's parameters: `parameters`.
pub const PARAMETERS: [u8; 10] = [112, 97, 114, 97, 109, 101, 116, 101, 114, 115];

/// The name of the shortest grace period of a proposal: `min_proposal_grace_epoch`.
pub const MIN_PROPOSAL_GRACE_EPOCH: [u8; 24] = [
    109, 105, 110, 95, 112, 114, 111, 112, 111, 115, 97, 108, 95, 103, 114, 97, 99, 101, 95,
    101, 112, 111, 99, 104,
];

/// The name of the most that the treasury may hand out at once:
/// `max_transferable_fund`.
pub const MAX_TRANSFERABLE_FUND: [u8; 21] = [
    109, 97, 120, 95, 116, 114, 97, 110, 115, 102, 101, 114, 97, 98, 108, 101, 95, 102, 117,
    110, 100,
];

/// The name of the list of transactions that are allowed: `tx_whitelist`.
pub const TX_WHITELIST: [u8; 12] = [116, 120, 95, 119, 104, 105, 116, 101, 108, 105, 115, 116];

/// The one entry of the list that [`tx_proposal_code`] allows: `hash`.
pub const HASH: [u8; 4] = [104, 97, 115, 104];

/// The key of the shortest grace period of a proposal, in epochs:
/// `#governance/min_proposal_grace_epoch`.
pub open spec fn min_proposal_grace_epoch_key() -> KeyView {
    seq![SegmentView::Addr(GOVERNANCE@), SegmentView::Text(MIN_PROPOSAL_GRACE_EPOCH@)]
}

/// The key of the most that the treasury may hand out at once:
/// `#treasury/max_transferable_fund`.
pub open spec fn max_transferable_fund_key() -> KeyView {
    seq![SegmentView::Addr(TREASURY@), SegmentView::Text(MAX_TRANSFERABLE_FUND@)]
}

/// The key of the list of transactions that are allowed:
/// `#parameters/tx_whitelist`.
pub open spec fn tx_whitelist_key() -> KeyView {
    seq![SegmentView::Addr(PARAMETERS@), SegmentView::Text(TX_WHITELIST@)]
}

/// The grace period that [`tx_proposal_code`] sets, in epochs.
pub const GRACE_EPOCHS: u64 = 9;

/// The limit that [`tx_proposal_code`] sets for the treasury: 20 000 whole
/// tokens, in millionths.
pub const TRANSFERABLE_FUND: u64 = 20_000_000_000;

/// The list that [`tx_proposal_code`] allows: its one entry behind their number.
pub open spec fn whitelist_value() -> Seq<u8> {
    u32_le(1) + frame(HASH@)
}

/// What [`tx_proposal_code`] stages on top of `staged`.
pub open spec fn proposal_staged(staged: Staged) -> Staged {
    staged.insert(min_proposal_grace_epoch_key(), Some(u64_le(GRACE_EPOCHS))).insert(
        max_transferable_fund_key(),
        Some(u64_le(TRANSFERABLE_FUND)),
    ).insert(tx_whitelist_key(), Some(whitelist_value()))
}

/// Whether `bytes` are well-formed UTF-8. The work is done by
/// `std::str::from_utf8`, which succeeds on the byte strings that are
/// well-formed UTF-8 and on no others.
#[verifier::external_body]
fn is_utf8(bytes: &[u8]) -> (out: bool)
    ensures
        out == valid_utf8(bytes@),
{
    std::str::from_utf8(bytes).is_ok()
}

/// The key made of an account's address and one plain segment.
fn account_key<const N: usize, const M: usize>(account: &[u8; N], name: &[u8; M]) -> (out: Key)
    requires
        valid_address(account@),
        valid_text(name@),
    ensures
        out@ == seq![SegmentView::Addr(account@), SegmentView::Text(name@)],
{
    let ghost want = seq![SegmentView::Addr(account@), SegmentView::Text(name@)];
    let address: Address = match Address::new(array_bytes(account).as_slice()) {
        Some(a) => a,
        None => vstd::pervasive::unreached(),
    };
    let mut segments: Vec<Segment> = Vec::new();
    segments.push(Segment::Addr(address));
    segments.push(Segment::Text(array_bytes(name)));
    proof {
        assert(Seq::new(segments@.len(), |i: int| segments@[i]@) =~= want);
        assert(key_wf(want));
    }
    match Key::from_segments(segments) {
        Ok(key) => key,
        Err(_) => vstd::pervasive::unreached(),
    }
}

/// The body that does nothing.
pub fn tx_no_op(ctx: &mut TxCtx, tx_data: &[u8]) -> (out: Result<(), Error>)
    ensures
        out == Ok::<(), Error>(()),
        *final(ctx) == *old(ctx),
{
    Ok(())
}

/// The body that allocates as many bytes as `tx_data` says, out of the budget
/// in `limiter`.
pub fn tx_memory_limit(limiter: &mut Limiter, tx_data: &[u8]) -> (out: Result<(), Error>)
    ensures
        (out, *final(limiter)) == allocated(tx_data@, *old(limiter)),
{
    allocate(limiter, tx_data)
}

/// The body that sets the shortest grace period of a proposal, the most that
/// the treasury may hand out, and the list of transactions that are allowed.
pub fn tx_proposal_code(ctx: &mut TxCtx) -> (out: Result<(), Error>)
    ensures
        out == Ok::<(), Error>(()),
        final(ctx).staged() == proposal_staged(old(ctx).staged()),
        final(ctx).pre() == old(ctx).pre(),
        final(ctx).verifiers() == old(ctx).verifiers(),
{
    // governance
    let target_key: Key = account_key(&GOVERNANCE, &MIN_PROPOSAL_GRACE_EPOCH);
    let mut grace: Vec<u8> = Vec::new();
    put_u64(&mut grace, GRACE_EPOCHS);
    assert(grace@ =~= u64_le(GRACE_EPOCHS));
    ctx.write(target_key, grace);

    // treasury
    let target_key: Key = account_key(&TREASURY, &MAX_TRANSFERABLE_FUND);
    let mut fund: Vec<u8> = Vec::new();
    put_u64(&mut fund, TRANSFERABLE_FUND);
    assert(fund@ =~= u64_le(TRANSFERABLE_FUND));
    ctx.write(target_key, fund);

    // parameters
    let target_key: Key = account_key(&PARAMETERS, &TX_WHITELIST);
    let mut whitelist: Vec<u8> = Vec::new();
    put_u32(&mut whitelist, 1);
    let fits: bool = put_frame(&mut whitelist, array_bytes(&HASH).as_slice());
    assert(fits);
    assert(whitelist@ =~= whitelist_value());
    ctx.write(target_key, whitelist);
    Ok(())
}

/// What comes of reading the key whose text is `text` out of `state` as one frame.
pub open spec fn frame_read(state: Map<KeyView, Seq<u8>>, text: Seq<u8>) -> Result<(), Error> {
    match parsed(text) {
        Some(k) => match value_in(state, k) {
            Some(v) => if sole_frame(v) is Some {
                Ok(())
            } else {
                Err(Error::DecodeError)
            },
            None => Err(Error::LogicError(Fault::MissingValue)),
        },
        None => Err(Error::InvalidKeyFormat),
    }
}

/// The body that reads the key whose text is `tx_data` as the transaction
/// sees it. It fails where the key holds nothing, or anything but one frame.
pub fn tx_read_storage_key(ctx: &mut TxCtx, tx_data: &[u8]) -> (out: Result<(), Error>)
    ensures
        out == frame_read(overlay(old(ctx).pre(), old(ctx).staged()), tx_data@),
        *final(ctx) == *old(ctx),
{
    let key: Key = Key::parse(tx_data)?;
    match ctx.read(&key) {
        Some(value) => match read_sole_frame(value.as_slice()) {
            Some(_) => Ok(()),
            None => Err(Error::DecodeError),
        },
        None => Err(Error::LogicError(Fault::MissingValue)),
    }
}

/// The key that [`tx_write_storage_key`] writes to when it is given `tx_data`:
/// the envelope must decode and carry a payload, the payload must be
/// well-formed UTF-8, and it must be the text of a key.
pub open spec fn write_target(tx_data: Seq<u8>) -> Result<KeyView, Error> {
    match decoded(tx_data) {
        Some(envelope) => match envelope.payload {
            Some(text) => if !valid_utf8(text) {
                Err(Error::LogicError(Fault::KeyNotText))
            } else {
                match parsed(text) {
                    Some(k) => Ok(k),
                    None => Err(Error::InvalidKeyFormat),
                }
            },
            None => Err(Error::LogicError(Fault::NoPayload)),
        },
        None => Err(Error::DecodeError),
    }
}

/// The body that writes a fixed value, in a frame, to the key that the
/// envelope's payload is the text of. Where it fails it stages nothing.
pub fn tx_write_storage_key(ctx: &mut TxCtx, tx_data: &[u8]) -> (out: Result<(), Error>)
    ensures
        match write_target(tx_data@) {
            Ok(k) => out == Ok::<(), Error>(()) && final(ctx).staged() == old(ctx).staged().insert(
                k,
                Some(frame(ARBITRARY_VALUE@)),
            ),
            Err(e) => out == Err::<(), Error>(e) && final(ctx).staged() == old(ctx).staged(),
        },
        final(ctx).pre() == old(ctx).pre(),
        final(ctx).verifiers() == old(ctx).verifiers(),
{
    let signed: SignedEnvelope = SignedEnvelope::decode(tx_data)?;
    let data: Vec<u8> = match signed.payload {
        Some(data) => data,
        None => {
            return Err(Error::LogicError(Fault::NoPayload));
        },
    };
    if !is_utf8(data.as_slice()) {
        return Err(Error::LogicError(Fault::KeyNotText));
    }
    let key: Key = Key::parse(data.as_slice())?;
    let mut value: Vec<u8> = Vec::new();
    let fits: bool = put_frame(&mut value, array_bytes(&ARBITRARY_VALUE).as_slice());
    assert(fits);
    assert(value@ =~= frame(ARBITRARY_VALUE@));
    ctx.write(key, value);
    Ok(())
}

/// What [`tx_mint_tokens`] stages when it is given `tx_data` on top of
/// `state`: the key of the target's balance and the balance with the
/// transfer's amount added.
pub open spec fn minted(state: Map<KeyView, Seq<u8>>, tx_data: Seq<u8>) -> Result<
    (KeyView, u64),
    Error,
> {
    match decoded(tx_data) {
        Some(envelope) => match envelope.payload {
            Some(payload) => match transfer_decoded(payload) {
                Some(transfer) => {
                    let key = balance_key_of(transfer.token, transfer.target);
                    let balance = match value_in(state, key) {
                        Some(v) => amount_of(v),
                        None => Some(0u64),
                    };
                    match balance {
                        Some(b) => if b + transfer.amount <= u64::MAX {
                            Ok((key, (b + transfer.amount) as u64))
                        } else {
                            Err(Error::LogicError(Fault::AmountOverflow))
                        },
                        None => Err(Error::DecodeError),
                    }
                },
                None => Err(Error::DecodeError),
            },
            None => Err(Error::LogicError(Fault::NoPayload)),
        },
        None => Err(Error::DecodeError),
    }
}

/// The body that adds the amount of a transfer to the balance of its target
/// and takes nothing from its source. Where it fails it stages nothing.
pub fn tx_mint_tokens(ctx: &mut TxCtx, tx_data: &[u8]) -> (out: Result<(), Error>)
    ensures
        match minted(overlay(old(ctx).pre(), old(ctx).staged()), tx_data@) {
            Ok((k, balance)) => {
                &&& out == Ok::<(), Error>(())
                &&& final(ctx).staged() == old(ctx).staged().insert(k, Some(u64_le(balance)))
            },
            Err(e) => out == Err::<(), Error>(e) && final(ctx).staged() == old(ctx).staged(),
        },
        final(ctx).pre() == old(ctx).pre(),
        final(ctx).verifiers() == old(ctx).verifiers(),
{
    let signed: SignedEnvelope = SignedEnvelope::decode(tx_data)?;
    let payload: Vec<u8> = match signed.payload {
        Some(data) => data,
        None => {
            return Err(Error::LogicError(Fault::NoPayload));
        },
    };
    let transfer: Transfer = Transfer::decode(payload.as_slice())?;
    let target_key: Key = balance_key(&transfer.token, &transfer.target);
    let balance: u64 = match ctx.read(&target_key) {
        Some(value) => match decode_amount(value.as_slice()) {
            Some(b) => b,
            None => {
                return Err(Error::DecodeError);
            },
        },
        None => 0,
    };
    let credited: u64 = match balance.checked_add(transfer.amount) {
        Some(sum) => sum,
        None => {
            return Err(Error::LogicError(Fault::AmountOverflow));
        },
    };
    let mut value: Vec<u8> = Vec::new();
    put_u64(&mut value, credited);
    assert(value@ =~= u64_le(credited));
    ctx.write(target_key, value);
    Ok(())
}

/// What comes of the body `body` when it is given `tx_data`: whether it
/// succeeds, what is staged after it, and what is left of its budget. `pre`
/// is storage before the transaction, `staged` what was staged before the
/// body ran. A body that fails stages nothing.
pub open spec fn applied(
    body: TxBody,
    pre: Map<KeyView, Seq<u8>>,
    staged: Staged,
    limiter: Limiter,
    tx_data: Seq<u8>,
) -> (Result<(), Error>, Staged, Limiter) {
    match body {
        TxBody::NoOp => (Ok(()), staged, limiter),
        TxBody::MemoryLimit => (
            allocated(tx_data, limiter).0,
            staged,
            allocated(tx_data, limiter).1,
        ),
        TxBody::ProposalCode => (Ok(()), proposal_staged(staged), limiter),
        TxBody::ReadStorageKey => (frame_read(overlay(pre, staged), tx_data), staged, limiter),
        TxBody::WriteStorageKey => match write_target(tx_data) {
            Ok(k) => (Ok(()), staged.insert(k, Some(frame(ARBITRARY_VALUE@))), limiter),
            Err(e) => (Err(e), staged, limiter),
        },
        TxBody::MintTokens => match minted(overlay(pre, staged), tx_data) {
            Ok((k, balance)) => (Ok(()), staged.insert(k, Some(u64_le(balance))), limiter),
            Err(e) => (Err(e), staged, limiter),
        },
    }
}

/// Runs the body `body` on `tx_data`, in the context `ctx` and out of the
/// budget in `limiter`.
pub fn apply_tx(body: TxBody, ctx: &mut TxCtx, limiter: &mut Limiter, tx_data: &[u8]) -> (out:
    Result<(), Error>)
    ensures
        (out, final(ctx).staged(), *final(limiter)) == applied(
            body,
            old(ctx).pre(),
            old(ctx).staged(),
            *old(limiter),
            tx_data@,
        ),
        final(ctx).pre() == old(ctx).pre(),
        final(ctx).verifiers() == old(ctx).verifiers(),
{
    match body {
        TxBody::NoOp => tx_no_op(ctx, tx_data),
        TxBody::MemoryLimit => tx_memory_limit(limiter, tx_data),
        TxBody::ProposalCode => tx_proposal_code(ctx),
        TxBody::ReadStorageKey => tx_read_storage_key(ctx, tx_data),
        TxBody::WriteStorageKey => tx_write_storage_key(ctx, tx_data),
        TxBody::MintTokens => tx_mint_tokens(ctx, tx_data),
    }
}

} // verus!
