//! Token balances: where they are stored, how a transfer is laid out, and the
//! predicate that holds every token's supply constant.

use vstd::prelude::*;
use crate::context::{bytes_of, VpCtx};
use crate::error::Error;
use crate::key::{key_wf, parsed, valid_address, Address, Key, KeyView, Segment, SegmentView};
use crate::storage::{value_in, Values};
use crate::wire::{array_bytes, parse_frame, parse_u64, parse_u8, same_bytes, u64_of, Reader};

verus! {

/// The text segment of a balance key: `balance`.
pub const BALANCE: [u8; 7] = [98, 97, 108, 97, 110, 99, 101];

/// The key under which `owner`'s balance of `token` is stored.
pub open spec fn balance_key_of(token: Seq<u8>, owner: Seq<u8>) -> KeyView {
    seq![
        SegmentView::Addr(token),
        SegmentView::Text(BALANCE@),
        SegmentView::Addr(owner),
    ]
}

/// Whether `k` is the key of some owner's balance of some token.
pub open spec fn is_balance_key(k: KeyView) -> bool {
    &&& k.len() == 3
    &&& k[0] is Addr
    &&& k[1] == SegmentView::Text(BALANCE@)
    &&& k[2] is Addr
}

/// The token of a balance key.
pub open spec fn token_of(k: KeyView) -> Seq<u8> {
    k[0]->Addr_0
}

/// The amount that a stored value stands for: eight bytes, least significant
/// first. A value of any other length stands for none.
pub open spec fn amount_of(value: Seq<u8>) -> Option<u64> {
    if value.len() == 8 {
        Some(u64_of(value))
    } else {
        None
    }
}

/// The balance under `k` in `state`: nothing stored is a balance of zero, and
/// a stored value that stands for no amount is no balance.
pub open spec fn balance_in(state: Values, k: KeyView) -> Option<u64> {
    match value_in(state, k) {
        Some(v) => amount_of(v),
        None => Some(0u64),
    }
}

/// The key under which `owner`'s balance of `token` is stored.
pub fn balance_key(token: &Address, owner: &Address) -> (out: Key)
    ensures
        out@ == balance_key_of(token@, owner@),
{
    let text: Vec<u8> = array_bytes(&BALANCE);
    let ghost want = balance_key_of(token@, owner@);
    let mut segments: Vec<Segment> = Vec::new();
    segments.push(Segment::Addr(token.clone()));
    segments.push(Segment::Text(text));
    segments.push(Segment::Addr(owner.clone()));
    proof {
        assert(Seq::new(segments@.len(), |i: int| segments@[i]@) =~= want);
        assert(key_wf(want));
    }
    match Key::from_segments(segments) {
        Ok(key) => key,
        Err(_) => vstd::pervasive::unreached(),
    }
}

/// The token of `key`, where `key` is a balance key.
pub fn balance_token(key: &Key) -> (out: Option<&Address>)
    ensures
        out is Some <==> is_balance_key(key@),
        out matches Some(t) ==> t@ == token_of(key@),
{
    if key.len() != 3 {
        return None;
    }
    match key.segment(1) {
        Segment::Text(t) => {
            if !same_bytes(t.as_slice(), array_bytes(&BALANCE).as_slice()) {
                return None;
            }
        },
        Segment::Addr(_) => {
            return None;
        },
    }
    match key.segment(2) {
        Segment::Addr(_) => {},
        Segment::Text(_) => {
            return None;
        },
    }
    match key.segment(0) {
        Segment::Addr(token) => Some(token),
        Segment::Text(_) => None,
    }
}

/// The amount that `value` stands for.
pub fn decode_amount(value: &[u8]) -> (out: Option<u64>)
    ensures
        out == amount_of(value@),
{
    if value.len() != 8 {
        return None;
    }
    let mut reader = Reader::new(value);
    reader.u64()
}

/// The sum of the balances in `state` under those of `keys` that are balance
/// keys of `token`, a value that stands for no amount counting as zero.
pub open spec fn supply(keys: Seq<KeyView>, token: Seq<u8>, state: Values) -> nat
    decreases keys.len(),
{
    if keys.len() == 0 {
        0
    } else {
        let k = keys.last();
        let rest = supply(keys.drop_last(), token, state);
        if is_balance_key(k) && token_of(k) == token {
            match balance_in(state, k) {
                Some(amount) => rest + amount as nat,
                None => rest,
            }
        } else {
            rest
        }
    }
}

/// Whether every balance in `state` under a balance key among `keys` is an amount.
pub open spec fn readable(keys: Seq<KeyView>, state: Values) -> bool {
    forall|i: int|
        0 <= i < keys.len() && is_balance_key(#[trigger] keys[i]) ==> balance_in(state, keys[i])
            is Some
}

/// Whether, for every token of which `keys` holds a balance key, the balances
/// under `keys` add up to the same in `pre` and in `post`.
pub open spec fn conserved(keys: Seq<KeyView>, pre: Values, post: Values) -> bool {
    forall|i: int|
        0 <= i < keys.len() && is_balance_key(#[trigger] keys[i]) ==> supply(
            keys,
            token_of(keys[i]),
            pre,
        ) == supply(keys, token_of(keys[i]), post)
}

/// What the supply predicate says of a change: an error where a changed
/// balance cannot be read, before or after; else whether no token's supply
/// has changed.
pub open spec fn supply_verdict(keys: Seq<KeyView>, pre: Values, post: Values) -> Result<
    bool,
    Error,
> {
    if !readable(keys, pre) || !readable(keys, post) {
        Err(Error::DecodeError)
    } else {
        Ok(conserved(keys, pre, post))
    }
}

/// The balance that an optional stored value stands for.
fn balance_from(value: Option<&Vec<u8>>) -> (out: Option<u64>)
    ensures
        out == match bytes_of(value) {
            Some(v) => amount_of(v),
            None => Some(0u64),
        },
{
    match value {
        Some(v) => decode_amount(v.as_slice()),
        None => Some(0),
    }
}

/// The supply of `token` under the changed keys, before and after the transaction.
fn supplies(ctx: &VpCtx, token: &Address) -> (out: (u128, u128))
    ensures
        out.0 == supply(ctx.changed(), token@, ctx.pre()),
        out.1 == supply(ctx.changed(), token@, ctx.post()),
{
    let n: usize = ctx.changed_len();
    let mut before: u128 = 0;
    let mut after: u128 = 0;
    let mut i: usize = 0;
    assert(ctx.changed().take(0) =~= Seq::<KeyView>::empty());
    while i < n
        invariant
            i <= n == ctx.changed().len(),
            before == supply(ctx.changed().take(i as int), token@, ctx.pre()),
            after == supply(ctx.changed().take(i as int), token@, ctx.post()),
            before <= i * 0xffff_ffff_ffff_ffff,
            after <= i * 0xffff_ffff_ffff_ffff,
        decreases n - i,
    {
        let key: &Key = ctx.changed_key(i);
        proof {
            let upto = ctx.changed().take(i + 1);
            assert(upto.drop_last() =~= ctx.changed().take(i as int));
            assert(upto.last() == key@);
        }
        match balance_token(key) {
            Some(t) => {
                if t.same(token) {
                    match balance_from(ctx.read_pre(key)) {
                        Some(amount) => {
                            before = before + amount as u128;
                        },
                        None => {},
                    }
                    match balance_from(ctx.read(key)) {
                        Some(amount) => {
                            after = after + amount as u128;
                        },
                        None => {},
                    }
                }
            },
            None => {},
        }
        i = i + 1;
    }
    assert(ctx.changed().take(i as int) =~= ctx.changed());
    (before, after)
}

/// Judges a transaction by the supply of every token whose balances it
/// changed: accepted where each supply is what it was.
pub fn vp_token(ctx: &VpCtx) -> (out: Result<bool, Error>)
    ensures
        out == supply_verdict(ctx.changed(), ctx.pre(), ctx.post()),
{
    let n: usize = ctx.changed_len();
    let ghost keys = ctx.changed();
    let mut i: usize = 0;
    while i < n
        invariant
            i <= n == keys.len(),
            keys == ctx.changed(),
            forall|j: int|
                0 <= j < i && is_balance_key(#[trigger] keys[j]) ==> balance_in(ctx.pre(), keys[j])
                    is Some && balance_in(ctx.post(), keys[j]) is Some,
        decreases n - i,
    {
        let key: &Key = ctx.changed_key(i);
        if balance_token(key).is_some() {
            let before = balance_from(ctx.read_pre(key));
            let after = balance_from(ctx.read(key));
            if before.is_none() || after.is_none() {
                assert(is_balance_key(keys[i as int]));
                return Err(Error::DecodeError);
            }
        }
        i = i + 1;
    }
    let mut balanced: bool = true;
    let mut i: usize = 0;
    while i < n
        invariant
            i <= n == keys.len(),
            keys == ctx.changed(),
            balanced == forall|j: int|
                0 <= j < i && is_balance_key(#[trigger] keys[j]) ==> supply(
                    keys,
                    token_of(keys[j]),
                    ctx.pre(),
                ) == supply(keys, token_of(keys[j]), ctx.post()),
        decreases n - i,
    {
        let key: &Key = ctx.changed_key(i);
        match balance_token(key) {
            Some(token) => {
                let (before, after) = supplies(ctx, token);
                if before != after {
                    assert(is_balance_key(keys[i as int]));
                    balanced = false;
                }
            },
            None => {},
        }
        i = i + 1;
    }
    Ok(balanced)
}

/// A transfer of tokens, as a transaction's payload asks for it.
#[derive(Debug, PartialEq, Eq)]
pub struct Transfer {
    /// The account that gives.
    pub source: Address,
    /// The account that receives.
    pub target: Address,
    /// The token that changes hands.
    pub token: Address,
    /// How much of it, in the token's smallest unit.
    pub amount: u64,
    /// A key under the token's address by which balances are told apart, if any.
    pub key: Option<Key>,
    /// Whether the transfer is shielded.
    pub shielded: bool,
}

/// A transfer as contracts see it.
pub struct TransferView {
    pub source: Seq<u8>,
    pub target: Seq<u8>,
    pub token: Seq<u8>,
    pub amount: u64,
    pub key: Option<KeyView>,
    pub shielded: bool,
}

impl View for Transfer {
    type V = TransferView;

    open spec fn view(&self) -> TransferView {
        TransferView {
            source: self.source@,
            target: self.target@,
            token: self.token@,
            amount: self.amount,
            key: match self.key {
                Some(k) => Some(k@),
                None => None,
            },
            shielded: self.shielded,
        }
    }
}

/// Splits a framed address off the front of `s`.
pub open spec fn parse_address(s: Seq<u8>) -> Option<(Seq<u8>, Seq<u8>)> {
    match parse_frame(s) {
        Some((raw, rest)) => if valid_address(raw) {
            Some((raw, rest))
        } else {
            None
        },
        None => None,
    }
}

/// Splits an optional key off the front of `s`: a byte `0`, or a byte `1`
/// and the key's text in a frame.
pub open spec fn parse_optional_key(s: Seq<u8>) -> Option<(Option<KeyView>, Seq<u8>)> {
    match parse_u8(s) {
        Some((tag, after_tag)) => if tag == 0 {
            Some((None, after_tag))
        } else if tag == 1 {
            match parse_frame(after_tag) {
                Some((text, rest)) => match parsed(text) {
                    Some(k) => Some((Some(k), rest)),
                    None => None,
                },
                None => None,
            }
        } else {
            None
        },
        None => None,
    }
}

/// Splits a truth value off the front of `s`: a byte `0` or `1`.
pub open spec fn parse_bool(s: Seq<u8>) -> Option<(bool, Seq<u8>)> {
    match parse_u8(s) {
        Some((b, rest)) => if b <= 1 {
            Some((b == 1, rest))
        } else {
            None
        },
        None => None,
    }
}

/// The transfer that `bytes` stand for: the three addresses, each in a frame,
/// the amount in eight bytes, the optional key, the truth value, and nothing else.
pub open spec fn transfer_decoded(bytes: Seq<u8>) -> Option<TransferView> {
    match parse_address(bytes) {
        Some((source, s1)) => match parse_address(s1) {
            Some((target, s2)) => match parse_address(s2) {
                Some((token, s3)) => match parse_u64(s3) {
                    Some((amount, s4)) => match parse_optional_key(s4) {
                        Some((key, s5)) => match parse_bool(s5) {
                            Some((shielded, rest)) => if rest.len() == 0 {
                                Some(TransferView { source, target, token, amount, key, shielded })
                            } else {
                                None
                            },
                            None => None,
                        },
                        None => None,
                    },
                    None => None,
                },
                None => None,
            },
            None => None,
        },
        None => None,
    }
}

/// Reads a framed address.
fn read_address(reader: &mut Reader) -> (out: Option<Address>)
    ensures
        match parse_address(old(reader).rest()) {
            Some((raw, rest)) => out is Some && out->0@ == raw && final(reader).rest() == rest,
            None => out is None,
        },
{
    match reader.frame() {
        Some(raw) => Address::new(raw.as_slice()),
        None => None,
    }
}

/// Reads an optional key.
fn read_optional_key(reader: &mut Reader) -> (out: Option<Option<Key>>)
    ensures
        match parse_optional_key(old(reader).rest()) {
            Some((Some(k), rest)) => out matches Some(Some(key)) && key@ == k
                && final(reader).rest() == rest,
            Some((None, rest)) => out matches Some(None) && final(reader).rest() == rest,
            None => out is None,
        },
{
    let tag: u8 = match reader.u8() {
        Some(t) => t,
        None => {
            return None;
        },
    };
    if tag == 0 {
        return Some(None);
    }
    if tag != 1 {
        return None;
    }
    let text: Vec<u8> = match reader.frame() {
        Some(t) => t,
        None => {
            return None;
        },
    };
    match Key::parse(text.as_slice()) {
        Ok(key) => Some(Some(key)),
        Err(_) => None,
    }
}

impl Transfer {
    /// The transfer that `bytes` stand for.
    pub fn decode(bytes: &[u8]) -> (out: Result<Transfer, Error>)
        ensures
            match transfer_decoded(bytes@) {
                Some(t) => out is Ok && out->Ok_0@ == t,
                None => out == Err::<Transfer, Error>(Error::DecodeError),
            },
    {
        let mut reader = Reader::new(bytes);
        let source: Address = match read_address(&mut reader) {
            Some(a) => a,
            None => {
                return Err(Error::DecodeError);
            },
        };
        let target: Address = match read_address(&mut reader) {
            Some(a) => a,
            None => {
                return Err(Error::DecodeError);
            },
        };
        let token: Address = match read_address(&mut reader) {
            Some(a) => a,
            None => {
                return Err(Error::DecodeError);
            },
        };
        let amount: u64 = match reader.u64() {
            Some(a) => a,
            None => {
                return Err(Error::DecodeError);
            },
        };
        let key: Option<Key> = match read_optional_key(&mut reader) {
            Some(k) => k,
            None => {
                return Err(Error::DecodeError);
            },
        };
        let shielded: bool = match reader.u8() {
            Some(b) => {
                if b > 1 {
                    return Err(Error::DecodeError);
                }
                b == 1
            },
            None => {
                return Err(Error::DecodeError);
            },
        };
        if !reader.is_done() {
            return Err(Error::DecodeError);
        }
        Ok(Transfer { source, target, token, amount, key, shielded })
    }
}

} // verus!
