use ledger_engine::context::VpCtx;
use ledger_engine::envelope::SignedEnvelope;
use ledger_engine::error::{Error, Fault};
use ledger_engine::key::{Address, Key};
use ledger_engine::limiter::Limiter;
use ledger_engine::predicate::{EvalRequest, Outcome, Registry, VpBody};
use ledger_engine::protocol::{predicate_key, triggered_addresses, validate_all, Attempt, Cause};
use ledger_engine::protocol::{Invocation, Limits, Phase};
use ledger_engine::storage::{Storage, WriteSet};
use ledger_engine::token::balance_key;
use ledger_engine::transaction::TxBody;
use ledger_engine::verifiers::AddressSet;

const LIMITS: Limits = Limits { budget: 1_000, depth: 8 };

fn key(text: &str) -> Key {
    Key::parse(text.as_bytes()).unwrap()
}

fn address(raw: &str) -> Address {
    Address::new(raw.as_bytes()).unwrap()
}

fn registry() -> Registry {
    let mut registry = Registry::new();
    registry.register(b"yes".to_vec(), VpBody::AlwaysTrue);
    registry.register(b"no".to_vec(), VpBody::AlwaysFalse);
    registry.register(b"eval".to_vec(), VpBody::Eval);
    registry.register(b"alloc".to_vec(), VpBody::MemoryLimit);
    registry.register(b"read".to_vec(), VpBody::ReadStorageKey);
    registry.register(b"token".to_vec(), VpBody::Token);
    registry
}

fn signed(payload: Option<&[u8]>) -> Vec<u8> {
    SignedEnvelope { payload: payload.map(|p| p.to_vec()), signature: vec![9; 64] }
        .encode()
        .unwrap()
}

fn transfer_bytes(source: &str, target: &str, token: &str, amount: u64) -> Vec<u8> {
    let fields: (Vec<u8>, Vec<u8>, Vec<u8>, u64, Option<Vec<u8>>, bool) = (
        source.as_bytes().to_vec(),
        target.as_bytes().to_vec(),
        token.as_bytes().to_vec(),
        amount,
        None,
        false,
    );
    borsh::to_vec(&fields).unwrap()
}

fn with_predicates(predicates: &[(&str, &str)]) -> Storage {
    let mut storage = Storage::new();
    for (account, reference) in predicates {
        storage.set(predicate_key(&address(account)), reference.as_bytes().to_vec());
    }
    storage
}

fn dump(storage: &Storage) -> Vec<(Vec<u8>, Vec<u8>)> {
    (0..storage.len())
        .map(|i| (storage.entry(i).key.to_text(), storage.entry(i).value.clone()))
        .collect()
}

fn run(storage: Storage, submitted: Vec<u8>, signature_holds: bool, body: TxBody) -> Attempt {
    let mut attempt = Attempt::new(storage, submitted);
    attempt.decode();
    attempt.verified(signature_holds);
    attempt.execute(body, LIMITS);
    attempt.validate(&registry(), LIMITS);
    attempt
}

#[test]
fn predicate_key_is_under_the_account() {
    assert_eq!(predicate_key(&address("acc1")).to_text(), b"#acc1/?".to_vec());
}

#[test]
fn an_attempt_goes_through_its_phases() {
    let storage = with_predicates(&[("acc", "yes")]);
    let mut attempt = Attempt::new(storage, signed(Some(b"#acc/slot")));
    assert_eq!(attempt.current(), Phase::Decoding);
    assert!(attempt.to_verify().is_none());
    attempt.decode();
    assert_eq!(attempt.current(), Phase::Verifying);
    let envelope = attempt.to_verify().unwrap();
    assert_eq!(envelope.payload, Some(b"#acc/slot".to_vec()));
    assert_eq!(envelope.signature, vec![9; 64]);
    attempt.verified(true);
    assert_eq!(attempt.current(), Phase::Executing);
    assert!(attempt.to_verify().is_none());
    attempt.execute(TxBody::WriteStorageKey, LIMITS);
    assert_eq!(attempt.current(), Phase::Validating);
    assert_eq!(attempt.look().get(&key("#acc/slot")), None);
    attempt.validate(&registry(), LIMITS);
    assert_eq!(attempt.current(), Phase::Committed);
    assert_eq!(attempt.rolled_back_for(), None);
    let storage = attempt.close();
    assert_eq!(storage.get(&key("#acc/slot")), Some(&borsh::to_vec("arbitrary value").unwrap()));
    assert_eq!(storage.len(), 2);
}

#[test]
fn bytes_that_are_no_envelope_are_rolled_back() {
    let attempt = run(Storage::new(), b"garbage".to_vec(), true, TxBody::NoOp);
    assert_eq!(attempt.current(), Phase::RolledBack);
    assert_eq!(attempt.rolled_back_for(), Some(Cause::Undecodable));
    assert_eq!(attempt.close().len(), 0);
}

#[test]
fn a_bad_signature_is_rolled_back_before_the_body_runs() {
    let storage = with_predicates(&[("acc", "yes")]);
    let before = dump(&storage);
    let mut attempt = Attempt::new(storage, signed(Some(b"#acc/slot")));
    attempt.decode();
    attempt.verified(false);
    assert_eq!(attempt.current(), Phase::RolledBack);
    assert_eq!(attempt.rolled_back_for(), Some(Cause::BadSignature));
    attempt.execute(TxBody::WriteStorageKey, LIMITS);
    attempt.validate(&registry(), LIMITS);
    assert_eq!(attempt.current(), Phase::RolledBack);
    assert_eq!(attempt.rolled_back_for(), Some(Cause::BadSignature));
    assert_eq!(dump(&attempt.close()), before);
}

#[test]
fn an_envelope_without_payload_has_nothing_to_verify() {
    let mut attempt = Attempt::new(Storage::new(), signed(None));
    attempt.decode();
    assert_eq!(attempt.current(), Phase::Verifying);
    assert!(attempt.to_verify().is_none());
    attempt.verified(false);
    assert_eq!(attempt.current(), Phase::Executing);
    attempt.execute(TxBody::WriteStorageKey, LIMITS);
    assert_eq!(attempt.current(), Phase::RolledBack);
    assert_eq!(
        attempt.rolled_back_for(),
        Some(Cause::Execution(Error::LogicError(Fault::NoPayload)))
    );
    attempt.validate(&registry(), LIMITS);
    assert_eq!(attempt.close().len(), 0);
}

#[test]
fn a_failing_body_is_rolled_back() {
    let attempt = run(Storage::new(), signed(Some(b"a//b")), true, TxBody::WriteStorageKey);
    assert_eq!(attempt.current(), Phase::RolledBack);
    assert_eq!(attempt.rolled_back_for(), Some(Cause::Execution(Error::InvalidKeyFormat)));
    let attempt = run(attempt.close(), signed(Some(b"x")), true, TxBody::MemoryLimit);
    assert_eq!(attempt.rolled_back_for(), Some(Cause::Execution(Error::DecodeError)));
    let attempt = run(attempt.close(), signed(Some(b"x")), true, TxBody::MintTokens);
    assert_eq!(attempt.rolled_back_for(), Some(Cause::Execution(Error::DecodeError)));
    let attempt = run(attempt.close(), signed(Some(b"absent")), true, TxBody::ReadStorageKey);
    assert_eq!(attempt.current(), Phase::RolledBack);
    assert_eq!(attempt.close().len(), 0);
}

#[test]
fn a_body_over_its_budget_is_rolled_back() {
    // An envelope of eight bytes: no payload, and a signature of three bytes.
    // Read as a number it is 3 * 256.
    let submitted = SignedEnvelope { payload: None, signature: vec![0, 0, 0] }.encode().unwrap();
    assert_eq!(submitted, vec![0, 3, 0, 0, 0, 0, 0, 0]);
    let mut attempt = Attempt::new(Storage::new(), submitted.clone());
    attempt.decode();
    attempt.verified(true);
    attempt.execute(TxBody::MemoryLimit, Limits { budget: 767, depth: 8 });
    assert_eq!(attempt.current(), Phase::RolledBack);
    assert_eq!(attempt.rolled_back_for(), Some(Cause::Execution(Error::ResourceExceeded)));
    let mut attempt = Attempt::new(attempt.close(), submitted);
    attempt.decode();
    attempt.verified(true);
    attempt.execute(TxBody::MemoryLimit, Limits { budget: 768, depth: 8 });
    assert_eq!(attempt.current(), Phase::Validating);
    attempt.validate(&registry(), LIMITS);
    assert_eq!(attempt.current(), Phase::Committed);
}

#[test]
fn steps_out_of_turn_do_nothing() {
    let storage = with_predicates(&[("acc", "yes")]);
    let mut attempt = Attempt::new(storage, signed(Some(b"#acc/slot")));
    attempt.verified(true);
    attempt.execute(TxBody::WriteStorageKey, LIMITS);
    attempt.validate(&registry(), LIMITS);
    assert_eq!(attempt.current(), Phase::Decoding);
    attempt.decode();
    attempt.decode();
    attempt.validate(&registry(), LIMITS);
    assert_eq!(attempt.current(), Phase::Verifying);
    attempt.execute(TxBody::WriteStorageKey, LIMITS);
    assert_eq!(attempt.current(), Phase::Verifying);
    assert_eq!(attempt.close().len(), 1);
}

#[test]
fn closing_early_drops_what_was_staged() {
    let storage = with_predicates(&[("acc", "yes")]);
    let before = dump(&storage);
    let mut attempt = Attempt::new(storage, signed(Some(b"#acc/slot")));
    attempt.decode();
    attempt.verified(true);
    attempt.execute(TxBody::WriteStorageKey, LIMITS);
    assert_eq!(attempt.current(), Phase::Validating);
    assert_eq!(dump(&attempt.close()), before);
}

#[test]
fn a_committed_attempt_stays_committed() {
    let storage = with_predicates(&[("acc", "yes")]);
    let mut attempt = run(storage, signed(Some(b"#acc/slot")), true, TxBody::WriteStorageKey);
    assert_eq!(attempt.current(), Phase::Committed);
    let after = dump(attempt.look());
    attempt.decode();
    attempt.verified(false);
    attempt.execute(TxBody::ProposalCode, LIMITS);
    attempt.validate(&registry(), LIMITS);
    assert_eq!(attempt.current(), Phase::Committed);
    assert_eq!(attempt.rolled_back_for(), None);
    assert_eq!(dump(&attempt.close()), after);
}

#[test]
fn a_transaction_that_changes_nothing_needs_no_predicate() {
    let attempt = run(Storage::new(), signed(Some(b"x")), true, TxBody::NoOp);
    assert_eq!(attempt.current(), Phase::Committed);
    assert_eq!(attempt.close().len(), 0);
}

#[test]
fn a_key_without_addresses_needs_no_predicate() {
    let attempt = run(Storage::new(), signed(Some(b"plain/key")), true, TxBody::WriteStorageKey);
    assert_eq!(attempt.current(), Phase::Committed);
    assert!(attempt.look().get(&key("plain/key")).is_some());
}

#[test]
fn every_address_in_a_changed_key_must_accept() {
    for (first, second, committed) in
        [("yes", "yes", true), ("yes", "no", false), ("no", "yes", false), ("no", "no", false)]
    {
        let storage = with_predicates(&[("one", first), ("two", second)]);
        let before = dump(&storage);
        let submitted = signed(Some(b"#one/x/#two"));
        let attempt = run(storage, submitted, true, TxBody::WriteStorageKey);
        if committed {
            assert_eq!(attempt.current(), Phase::Committed);
            assert!(attempt.look().get(&key("#one/x/#two")).is_some());
        } else {
            assert_eq!(attempt.current(), Phase::RolledBack);
            assert_eq!(attempt.rolled_back_for(), Some(Cause::Refused));
            assert_eq!(dump(attempt.look()), before);
        }
    }
}

#[test]
fn an_address_without_predicate_cannot_accept() {
    let storage = with_predicates(&[("one", "yes")]);
    let attempt = run(storage, signed(Some(b"#one/x/#two")), true, TxBody::WriteStorageKey);
    assert_eq!(attempt.current(), Phase::RolledBack);
    assert_eq!(attempt.rolled_back_for(), Some(Cause::Refused));
    assert_eq!(attempt.look().get(&key("#one/x/#two")), None);
}

#[test]
fn a_predicate_that_fails_does_not_accept() {
    for reference in ["nobody", "alloc", "read", "eval"] {
        let storage = with_predicates(&[("acc", reference)]);
        let attempt = run(storage, signed(Some(b"#acc/x")), true, TxBody::WriteStorageKey);
        assert_eq!(attempt.current(), Phase::RolledBack, "{}", reference);
        assert_eq!(attempt.rolled_back_for(), Some(Cause::Refused));
        assert_eq!(attempt.look().get(&key("#acc/x")), None);
    }
}

#[test]
fn the_predicate_is_the_one_from_before_the_transaction() {
    // The transaction overwrites the slot of its own account's predicate. It is
    // judged by the predicate that was there, which rejects.
    let storage = with_predicates(&[("acc", "no")]);
    let attempt = run(storage, signed(Some(b"#acc/?")), true, TxBody::WriteStorageKey);
    assert_eq!(attempt.current(), Phase::RolledBack);
    assert_eq!(attempt.look().get(&key("#acc/?")), Some(&b"no".to_vec()));
}

#[test]
fn unbalanced_mint_is_rolled_back() {
    let token = address("T");
    let owner = address("C");
    let balance = balance_key(&token, &owner);
    let mut storage = with_predicates(&[("T", "token"), ("C", "token")]);
    storage.set(balance.clone(), 100u64.to_le_bytes().to_vec());
    let before = dump(&storage);

    let submitted = signed(Some(&transfer_bytes("S", "C", "T", 50)));
    let mut attempt = Attempt::new(storage, submitted.clone());
    attempt.decode();
    attempt.verified(true);
    attempt.execute(TxBody::MintTokens, LIMITS);
    assert_eq!(attempt.current(), Phase::Validating);

    // What the predicate of C is shown, and what it says.
    let mut writes = WriteSet::new();
    writes.put(balance.clone(), 150u64.to_le_bytes().to_vec());
    let verifiers = AddressSet::new();
    {
        let ctx = VpCtx::new(attempt.look(), &writes, &verifiers);
        assert_eq!(ctx.changed_keys(), vec![balance.clone()]);
        assert_eq!(ctx.read_pre(&balance), Some(&100u64.to_le_bytes().to_vec()));
        assert_eq!(ctx.read(&balance), Some(&150u64.to_le_bytes().to_vec()));
        let mut invocation = Invocation::new(owner.clone(), LIMITS);
        assert_eq!(invocation.run(&registry(), &ctx, &submitted), Outcome::Reject);
    }

    attempt.validate(&registry(), LIMITS);
    assert_eq!(attempt.current(), Phase::RolledBack);
    assert_eq!(attempt.rolled_back_for(), Some(Cause::Refused));
    let storage = attempt.close();
    assert_eq!(storage.get(&balance), Some(&100u64.to_le_bytes().to_vec()));
    assert_eq!(dump(&storage), before);
}

#[test]
fn a_mint_of_nothing_is_committed() {
    let balance = balance_key(&address("T"), &address("C"));
    let mut storage = with_predicates(&[("T", "token"), ("C", "yes")]);
    storage.set(balance.clone(), 100u64.to_le_bytes().to_vec());
    let submitted = signed(Some(&transfer_bytes("S", "C", "T", 0)));
    let attempt = run(storage, submitted, true, TxBody::MintTokens);
    assert_eq!(attempt.current(), Phase::Committed);
    assert_eq!(attempt.look().get(&balance), Some(&100u64.to_le_bytes().to_vec()));
}

#[test]
fn proposal_code_is_committed_all_at_once() {
    let storage =
        with_predicates(&[("governance", "yes"), ("treasury", "yes"), ("parameters", "yes")]);
    let attempt = run(storage, signed(None), true, TxBody::ProposalCode);
    assert_eq!(attempt.current(), Phase::Committed);
    let storage = attempt.close();
    assert_eq!(storage.len(), 6);
    assert_eq!(
        storage.get(&key("#treasury/max_transferable_fund")),
        Some(&20_000_000_000u64.to_le_bytes().to_vec())
    );
}

#[test]
fn proposal_code_is_rolled_back_as_a_whole() {
    let storage =
        with_predicates(&[("governance", "yes"), ("treasury", "no"), ("parameters", "yes")]);
    let before = dump(&storage);
    let attempt = run(storage, signed(None), true, TxBody::ProposalCode);
    assert_eq!(attempt.current(), Phase::RolledBack);
    assert_eq!(attempt.rolled_back_for(), Some(Cause::Refused));
    assert_eq!(dump(&attempt.close()), before);
}

#[test]
fn transactions_are_applied_one_after_another() {
    let storage = with_predicates(&[("T", "yes"), ("C", "yes")]);
    let balance = balance_key(&address("T"), &address("C"));
    let submitted = signed(Some(&transfer_bytes("S", "C", "T", 30)));
    let first = run(storage, submitted.clone(), true, TxBody::MintTokens);
    assert_eq!(first.current(), Phase::Committed);
    let second = run(first.close(), submitted, true, TxBody::MintTokens);
    assert_eq!(second.current(), Phase::Committed);
    assert_eq!(second.look().get(&balance), Some(&60u64.to_le_bytes().to_vec()));
}

#[test]
fn triggered_addresses_are_those_in_changed_keys_and_the_verifiers() {
    let mut writes = WriteSet::new();
    writes.put(key("#a/x/#b"), vec![]);
    writes.delete(key("#b/y"));
    writes.put(key("plain"), vec![]);
    let mut verifiers = AddressSet::new();
    verifiers.insert(address("v"));
    verifiers.insert(address("a"));
    let triggered = triggered_addresses(&writes, &verifiers);
    assert_eq!(triggered.len(), 3);
    for name in ["a", "b", "v"] {
        assert!(triggered.contains(&address(name)));
    }
    assert!(!triggered.contains(&address("plain")));
    assert_eq!(triggered_addresses(&WriteSet::new(), &AddressSet::new()).len(), 0);
}

#[test]
fn validate_all_is_the_conjunction_of_the_verdicts() {
    let storage = with_predicates(&[("a", "yes"), ("b", "yes"), ("c", "no")]);
    let writes = WriteSet::new();
    let verifiers = AddressSet::new();
    let ctx = VpCtx::new(&storage, &writes, &verifiers);
    let set = |names: &[&str]| {
        let mut set = AddressSet::new();
        for name in names {
            set.insert(address(name));
        }
        set
    };
    assert!(validate_all(&registry(), &ctx, LIMITS, &set(&[]), b""));
    assert!(validate_all(&registry(), &ctx, LIMITS, &set(&["a", "b"]), b""));
    assert!(validate_all(&registry(), &ctx, LIMITS, &set(&["b", "a"]), b""));
    assert!(!validate_all(&registry(), &ctx, LIMITS, &set(&["a", "b", "c"]), b""));
    assert!(!validate_all(&registry(), &ctx, LIMITS, &set(&["c", "a", "b"]), b""));
    assert!(!validate_all(&registry(), &ctx, LIMITS, &set(&["a", "nobody"]), b""));
}

#[test]
fn each_predicate_has_a_budget_of_its_own() {
    // Both predicates allocate 600 of a budget of 1000: together more than
    // one budget, each within its own.
    let storage = with_predicates(&[("a", "alloc"), ("b", "alloc")]);
    let writes = WriteSet::new();
    let verifiers = AddressSet::new();
    let ctx = VpCtx::new(&storage, &writes, &verifiers);
    let mut both = AddressSet::new();
    both.insert(address("a"));
    both.insert(address("b"));
    assert!(validate_all(&registry(), &ctx, LIMITS, &both, &600u64.to_le_bytes()));
    assert!(!validate_all(&registry(), &ctx, LIMITS, &both, &1_000u64.to_le_bytes()));
    assert!(validate_all(&registry(), &ctx, LIMITS, &both, &999u64.to_le_bytes()));
}

#[test]
fn verifiers_are_judged_though_none_of_their_keys_changed() {
    let storage = with_predicates(&[("v", "no")]);
    let writes = WriteSet::new();
    let mut verifiers = AddressSet::new();
    verifiers.insert(address("v"));
    let ctx = VpCtx::new(&storage, &writes, &verifiers);
    let triggered = triggered_addresses(&writes, &verifiers);
    assert!(!validate_all(&registry(), &ctx, LIMITS, &triggered, b""));
}

#[test]
fn an_invocation_that_has_its_verdict_is_over() {
    let storage = with_predicates(&[("a", "alloc")]);
    let writes = WriteSet::new();
    let verifiers = AddressSet::new();
    let ctx = VpCtx::new(&storage, &writes, &verifiers);
    let input = 100u64.to_le_bytes();
    let mut invocation = Invocation::new(address("a"), LIMITS);
    assert_eq!(invocation.outcome(), None);
    assert_eq!(invocation.remaining(), Limiter { remaining: 1_000, tripped: false });
    assert_eq!(invocation.run(&registry(), &ctx, &input), Outcome::Accept);
    assert_eq!(invocation.outcome(), Some(Outcome::Accept));
    assert_eq!(invocation.remaining(), Limiter { remaining: 899, tripped: false });
    // Run again, even on other input: same verdict, nothing more consumed.
    assert_eq!(invocation.run(&registry(), &ctx, &input), Outcome::Accept);
    assert_eq!(invocation.run(&registry(), &ctx, b"junk"), Outcome::Accept);
    assert_eq!(invocation.remaining(), Limiter { remaining: 899, tripped: false });
    assert_eq!(invocation.outcome(), Some(Outcome::Accept));
}

#[test]
fn an_invocation_keeps_a_rejection_and_a_failure_too() {
    let storage = with_predicates(&[("n", "no"), ("e", "eval")]);
    let writes = WriteSet::new();
    let verifiers = AddressSet::new();
    let ctx = VpCtx::new(&storage, &writes, &verifiers);
    let mut rejected = Invocation::new(address("n"), LIMITS);
    assert_eq!(rejected.run(&registry(), &ctx, b""), Outcome::Reject);
    assert_eq!(rejected.run(&registry(), &ctx, b""), Outcome::Reject);
    assert_eq!(rejected.remaining().remaining, 999);
    let mut failed = Invocation::new(address("e"), Limits { budget: 1_000, depth: 1 });
    let inner = EvalRequest { vp_reference: b"yes".to_vec(), input: vec![] }.encode().unwrap();
    assert_eq!(
        failed.run(&registry(), &ctx, &inner),
        Outcome::Failed(Error::RecursionLimitExceeded)
    );
    assert_eq!(
        failed.run(&registry(), &ctx, b"junk"),
        Outcome::Failed(Error::RecursionLimitExceeded)
    );
    let mut missing = Invocation::new(address("zz"), LIMITS);
    assert_eq!(
        missing.run(&registry(), &ctx, b""),
        Outcome::Failed(Error::LogicError(Fault::NoPredicate))
    );
    assert_eq!(missing.remaining().remaining, 1_000);
}
