use ledger_engine::context::VpCtx;
use ledger_engine::error::{Error, Fault};
use ledger_engine::key::{Address, Key};
use ledger_engine::limiter::Limiter;
use ledger_engine::predicate::{accept, allocate, eval, judge, reject, vp_always_false};
use ledger_engine::predicate::{vp_always_true, vp_eval};
use ledger_engine::predicate::{vp_memory_limit, vp_read_storage_key, EvalRequest, Outcome};
use ledger_engine::predicate::{Registry, VpBody};
use ledger_engine::storage::{Storage, WriteSet};
use ledger_engine::token::{balance_key, decode_amount, vp_token};
use ledger_engine::verifiers::AddressSet;
use ledger_engine::wire::same_bytes;

fn key(text: &str) -> Key {
    Key::parse(text.as_bytes()).unwrap()
}

fn address(raw: &str) -> Address {
    Address::new(raw.as_bytes()).unwrap()
}

fn registry() -> Registry {
    let mut registry = Registry::new();
    registry.register(b"yes".to_vec(), VpBody::AlwaysTrue);
    registry.register(b"no".to_vec(), VpBody::AlwaysFalse);
    registry.register(b"eval".to_vec(), VpBody::Eval);
    registry.register(b"alloc".to_vec(), VpBody::MemoryLimit);
    registry.register(b"read".to_vec(), VpBody::ReadStorageKey);
    registry.register(b"token".to_vec(), VpBody::Token);
    registry
}

fn request(reference: &[u8], input: &[u8]) -> Vec<u8> {
    EvalRequest { vp_reference: reference.to_vec(), input: input.to_vec() }.encode().unwrap()
}

fn nested(levels: usize, reference: &[u8], input: &[u8]) -> Vec<u8> {
    let mut bytes = request(reference, input);
    for _ in 0..levels {
        bytes = request(b"eval", &bytes);
    }
    bytes
}

struct State {
    storage: Storage,
    writes: WriteSet,
    verifiers: AddressSet,
}

fn empty() -> State {
    State { storage: Storage::new(), writes: WriteSet::new(), verifiers: AddressSet::new() }
}

fn run(
    state: &State,
    limiter: &mut Limiter,
    depth: u32,
    reference: &[u8],
    input: &[u8],
) -> Outcome {
    let ctx = VpCtx::new(&state.storage, &state.writes, &state.verifiers);
    eval(&registry(), &ctx, limiter, depth, reference, input)
}

#[test]
fn limiter_counts_down() {
    let mut limiter = Limiter::new(10);
    assert_eq!(limiter.charge(3), Ok(()));
    assert_eq!(limiter, Limiter { remaining: 7, tripped: false });
    assert_eq!(limiter.charge(7), Ok(()));
    assert_eq!(limiter, Limiter { remaining: 0, tripped: false });
    assert_eq!(limiter.charge(0), Ok(()));
}

#[test]
fn limiter_trips_on_overrun_and_stays_tripped() {
    let mut limiter = Limiter::new(10);
    assert_eq!(limiter.charge(11), Err(Error::ResourceExceeded));
    assert_eq!(limiter, Limiter { remaining: 10, tripped: true });
    assert_eq!(limiter.charge(1), Err(Error::ResourceExceeded));
    assert_eq!(limiter.charge(0), Err(Error::ResourceExceeded));
    assert_eq!(limiter, Limiter { remaining: 10, tripped: true });
}

#[test]
fn same_bytes_compares() {
    assert!(same_bytes(b"", b""));
    assert!(same_bytes(b"ab", b"ab"));
    assert!(!same_bytes(b"ab", b"ac"));
    assert!(!same_bytes(b"ab", b"abc"));
}

#[test]
fn registry_resolves_to_the_first_entry() {
    let mut registry = Registry::new();
    assert_eq!(registry.resolve(b"a"), None);
    registry.register(b"a".to_vec(), VpBody::AlwaysTrue);
    registry.register(b"a".to_vec(), VpBody::AlwaysFalse);
    registry.register(b"b".to_vec(), VpBody::Token);
    assert_eq!(registry.resolve(b"a"), Some(VpBody::AlwaysTrue));
    assert_eq!(registry.resolve(b"b"), Some(VpBody::Token));
    assert_eq!(registry.resolve(b"c"), None);
    assert_eq!(registry.resolve(b""), None);
}

#[test]
fn eval_request_is_two_frames() {
    let bytes = request(b"yes", b"in");
    assert_eq!(bytes, vec![3, 0, 0, 0, b'y', b'e', b's', 2, 0, 0, 0, b'i', b'n']);
    assert_eq!(bytes, borsh::to_vec(&(b"yes".to_vec(), b"in".to_vec())).unwrap());
    assert_eq!(
        EvalRequest::decode(&bytes),
        Ok(EvalRequest { vp_reference: b"yes".to_vec(), input: b"in".to_vec() })
    );
}

#[test]
fn malformed_eval_request_is_refused() {
    let bytes = request(b"yes", b"in");
    for cut in 0..bytes.len() {
        assert_eq!(EvalRequest::decode(&bytes[..cut]), Err(Error::DecodeError));
    }
    let mut longer = bytes.clone();
    longer.push(0);
    assert_eq!(EvalRequest::decode(&longer), Err(Error::DecodeError));
}

#[test]
fn always_true_accepts_and_always_false_rejects() {
    assert_eq!(vp_always_true(), Outcome::Accept);
    assert_eq!(vp_always_false(), Outcome::Reject);
    let state = empty();
    let mut limiter = Limiter::new(5);
    assert_eq!(run(&state, &mut limiter, 1, b"yes", b"whatever"), Outcome::Accept);
    assert_eq!(limiter, Limiter { remaining: 4, tripped: false });
    assert_eq!(run(&state, &mut limiter, 1, b"no", b""), Outcome::Reject);
    assert_eq!(limiter, Limiter { remaining: 3, tripped: false });
}

#[test]
fn unknown_reference_fails_after_it_was_paid_for() {
    let state = empty();
    let mut limiter = Limiter::new(5);
    assert_eq!(
        run(&state, &mut limiter, 1, b"nobody", b""),
        Outcome::Failed(Error::LogicError(Fault::UnknownPredicate))
    );
    assert_eq!(limiter, Limiter { remaining: 4, tripped: false });
}

#[test]
fn no_depth_left_is_a_recursion_error() {
    let state = empty();
    let mut limiter = Limiter::new(5);
    assert_eq!(
        run(&state, &mut limiter, 0, b"yes", b""),
        Outcome::Failed(Error::RecursionLimitExceeded)
    );
    assert_eq!(limiter, Limiter { remaining: 5, tripped: false });
}

#[test]
fn no_budget_left_is_a_resource_error() {
    let state = empty();
    let mut limiter = Limiter::new(0);
    assert_eq!(
        run(&state, &mut limiter, 4, b"yes", b""),
        Outcome::Failed(Error::ResourceExceeded)
    );
    assert_eq!(limiter, Limiter { remaining: 0, tripped: true });
}

#[test]
fn eval_says_what_the_inner_predicate_says() {
    let state = empty();
    let mut limiter = Limiter::new(10);
    assert_eq!(run(&state, &mut limiter, 2, b"eval", &request(b"yes", b"")), Outcome::Accept);
    assert_eq!(limiter.remaining, 8);
    assert_eq!(run(&state, &mut limiter, 2, b"eval", &request(b"no", b"")), Outcome::Reject);
    assert_eq!(limiter.remaining, 6);
    assert_eq!(
        run(&state, &mut limiter, 2, b"eval", b"garbage"),
        Outcome::Failed(Error::DecodeError)
    );
    assert_eq!(limiter.remaining, 5);
}

#[test]
fn nesting_is_bounded_by_the_depth() {
    let state = empty();
    // Four evaluations in all: three that evaluate, and the one that accepts.
    let input = nested(2, b"yes", b"");
    let mut limiter = Limiter::new(100);
    assert_eq!(run(&state, &mut limiter, 4, b"eval", &input), Outcome::Accept);
    assert_eq!(limiter.remaining, 96);
    let mut limiter = Limiter::new(100);
    assert_eq!(
        run(&state, &mut limiter, 3, b"eval", &input),
        Outcome::Failed(Error::RecursionLimitExceeded)
    );
    assert_eq!(limiter, Limiter { remaining: 97, tripped: false });
}

#[test]
fn a_nested_evaluation_draws_on_the_budget_of_its_caller() {
    let state = empty();
    let input = nested(2, b"yes", b"");
    let mut limiter = Limiter::new(3);
    assert_eq!(
        run(&state, &mut limiter, 10, b"eval", &input),
        Outcome::Failed(Error::ResourceExceeded)
    );
    assert!(limiter.tripped);
    let mut limiter = Limiter::new(4);
    assert_eq!(run(&state, &mut limiter, 10, b"eval", &input), Outcome::Accept);
    assert_eq!(limiter, Limiter { remaining: 0, tripped: false });
}

#[test]
fn allocation_is_charged_to_the_budget() {
    let mut limiter = Limiter::new(100);
    assert_eq!(allocate(&mut limiter, &64u64.to_le_bytes()), Ok(()));
    assert_eq!(limiter.remaining, 36);
    assert_eq!(allocate(&mut limiter, &37u64.to_le_bytes()), Err(Error::ResourceExceeded));
    assert_eq!(limiter, Limiter { remaining: 36, tripped: true });
}

#[test]
fn allocation_wants_eight_bytes_that_say_how_much() {
    let mut limiter = Limiter::new(100);
    assert_eq!(allocate(&mut limiter, &[8, 0, 0, 0]), Err(Error::DecodeError));
    assert_eq!(allocate(&mut limiter, &[8, 0, 0, 0, 0, 0, 0, 0, 0]), Err(Error::DecodeError));
    assert_eq!(allocate(&mut limiter, &[]), Err(Error::DecodeError));
    assert_eq!(limiter, Limiter { remaining: 100, tripped: false });
    assert_eq!(allocate(&mut limiter, &borsh::to_vec(&8u64).unwrap()), Ok(()));
    assert_eq!(limiter.remaining, 92);
}

#[test]
fn allocation_of_less_than_it_looks_at_fails() {
    let mut limiter = Limiter::new(100);
    assert_eq!(
        allocate(&mut limiter, &7u64.to_le_bytes()),
        Err(Error::LogicError(Fault::ShortBuffer))
    );
    assert_eq!(limiter.remaining, 93);
    assert_eq!(
        vp_memory_limit(&mut limiter, &0u64.to_le_bytes()),
        Outcome::Failed(Error::LogicError(Fault::ShortBuffer))
    );
}

#[test]
fn memory_limit_accepts_within_the_budget() {
    let mut limiter = Limiter::new(1000);
    assert_eq!(vp_memory_limit(&mut limiter, &1000u64.to_le_bytes()), Outcome::Accept);
    assert_eq!(limiter, Limiter { remaining: 0, tripped: false });
    let mut limiter = Limiter::new(1000);
    assert_eq!(
        vp_memory_limit(&mut limiter, &1001u64.to_le_bytes()),
        Outcome::Failed(Error::ResourceExceeded)
    );
    assert_eq!(
        vp_memory_limit(&mut limiter, &u64::MAX.to_le_bytes()),
        Outcome::Failed(Error::ResourceExceeded)
    );
}

#[test]
fn repeated_evaluation_gets_no_fresh_budget() {
    let state = empty();
    let input = 40u64.to_le_bytes();
    // Each evaluation costs 1 + 40. Two fit into 100, three do not.
    let mut limiter = Limiter::new(100);
    assert_eq!(run(&state, &mut limiter, 1, b"alloc", &input), Outcome::Accept);
    assert_eq!(limiter.remaining, 59);
    assert_eq!(run(&state, &mut limiter, 1, b"alloc", &input), Outcome::Accept);
    assert_eq!(limiter.remaining, 18);
    assert_eq!(
        run(&state, &mut limiter, 1, b"alloc", &input),
        Outcome::Failed(Error::ResourceExceeded)
    );
    assert!(limiter.tripped);
    assert_eq!(
        run(&state, &mut limiter, 1, b"yes", b""),
        Outcome::Failed(Error::ResourceExceeded)
    );
}

#[test]
fn repeated_nested_evaluation_gets_no_fresh_budget() {
    let state = empty();
    let input = request(b"alloc", &40u64.to_le_bytes());
    // Each costs 2 + 40.
    let mut limiter = Limiter::new(83);
    assert_eq!(run(&state, &mut limiter, 2, b"eval", &input), Outcome::Accept);
    assert_eq!(
        run(&state, &mut limiter, 2, b"eval", &input),
        Outcome::Failed(Error::ResourceExceeded)
    );
}

#[test]
fn evaluating_twice_says_the_same_twice() {
    let mut state = empty();
    state.storage.set(key("a"), vec![0, 0, 0, 0]);
    let cases: Vec<(&[u8], Vec<u8>)> = vec![
        (b"yes", vec![]),
        (b"no", vec![]),
        (b"nobody", vec![]),
        (b"read", b"a".to_vec()),
        (b"read", b"missing".to_vec()),
        (b"read", b"a//b".to_vec()),
        (b"alloc", 9u64.to_le_bytes().to_vec()),
        (b"alloc", 3u64.to_le_bytes().to_vec()),
        (b"eval", request(b"no", b"")),
        (b"eval", b"junk".to_vec()),
        (b"token", vec![]),
    ];
    for (reference, input) in cases {
        let mut limiter = Limiter::new(1000);
        let first = run(&state, &mut limiter, 3, reference, &input);
        let second = run(&state, &mut limiter, 3, reference, &input);
        assert_eq!(first, second);
    }
}

#[test]
fn judge_runs_a_behaviour_without_resolving_it() {
    let state = empty();
    let ctx = VpCtx::new(&state.storage, &state.writes, &state.verifiers);
    let mut limiter = Limiter::new(10);
    assert_eq!(
        judge(VpBody::AlwaysFalse, &registry(), &ctx, &mut limiter, 0, b""),
        Outcome::Reject
    );
    assert_eq!(limiter.remaining, 10);
    assert_eq!(
        judge(VpBody::Eval, &registry(), &ctx, &mut limiter, 0, &request(b"yes", b"")),
        Outcome::Failed(Error::RecursionLimitExceeded)
    );
    assert_eq!(
        judge(VpBody::Eval, &registry(), &ctx, &mut limiter, 1, &request(b"yes", b"")),
        Outcome::Accept
    );
    assert_eq!(limiter.remaining, 9);
}

#[test]
fn read_storage_key_reads_the_state_before() {
    let mut state = empty();
    state.storage.set(key("a"), vec![2, 0, 0, 0, 7, 7]);
    state.storage.set(key("raw"), vec![7, 7]);
    state.writes.delete(key("a"));
    state.writes.put(key("new"), vec![0, 0, 0, 0]);
    let ctx = VpCtx::new(&state.storage, &state.writes, &state.verifiers);
    assert_eq!(vp_read_storage_key(&ctx, b"a"), Outcome::Accept);
    assert_eq!(
        vp_read_storage_key(&ctx, b"new"),
        Outcome::Failed(Error::LogicError(Fault::MissingValue))
    );
    assert_eq!(vp_read_storage_key(&ctx, b"raw"), Outcome::Failed(Error::DecodeError));
    assert_eq!(vp_read_storage_key(&ctx, b"a//"), Outcome::Failed(Error::InvalidKeyFormat));
    assert_eq!(vp_read_storage_key(&ctx, b""), Outcome::Failed(Error::InvalidKeyFormat));
}

#[test]
fn amounts_are_eight_bytes() {
    assert_eq!(decode_amount(&100u64.to_le_bytes()), Some(100));
    assert_eq!(decode_amount(&u64::MAX.to_le_bytes()), Some(u64::MAX));
    assert_eq!(decode_amount(&[1, 2, 3]), None);
    assert_eq!(decode_amount(&[0; 9]), None);
    assert_eq!(decode_amount(&[]), None);
}

fn balances(pre: &[(&str, &str, u64)], post: &[(&str, &str, Option<u64>)]) -> State {
    let mut state = empty();
    for (token, owner, amount) in pre {
        state
            .storage
            .set(balance_key(&address(token), &address(owner)), amount.to_le_bytes().to_vec());
    }
    for (token, owner, amount) in post {
        let k = balance_key(&address(token), &address(owner));
        match amount {
            Some(a) => state.writes.put(k, a.to_le_bytes().to_vec()),
            None => state.writes.delete(k),
        }
    }
    state
}

fn token_verdict(state: &State) -> Result<bool, Error> {
    let ctx = VpCtx::new(&state.storage, &state.writes, &state.verifiers);
    vp_token(&ctx)
}

#[test]
fn a_transfer_conserves_the_supply() {
    let state = balances(
        &[("t", "a", 100), ("t", "b", 5)],
        &[("t", "a", Some(70)), ("t", "b", Some(35))],
    );
    assert_eq!(token_verdict(&state), Ok(true));
}

#[test]
fn a_mint_does_not_conserve_the_supply() {
    let state = balances(&[("t", "c", 100)], &[("t", "c", Some(150))]);
    assert_eq!(token_verdict(&state), Ok(false));
}

#[test]
fn a_burn_does_not_conserve_the_supply() {
    let state = balances(&[("t", "c", 100)], &[("t", "c", None)]);
    assert_eq!(token_verdict(&state), Ok(false));
}

#[test]
fn each_token_is_held_to_its_own_supply() {
    // What leaves token t arrives in token u: both supplies change.
    let state = balances(
        &[("t", "a", 10), ("u", "a", 0)],
        &[("t", "a", Some(0)), ("u", "a", Some(10))],
    );
    assert_eq!(token_verdict(&state), Ok(false));
    let state = balances(
        &[("t", "a", 10), ("t", "b", 0), ("u", "a", 3), ("u", "b", 4)],
        &[
            ("t", "a", Some(0)),
            ("t", "b", Some(10)),
            ("u", "a", Some(7)),
            ("u", "b", Some(0)),
        ],
    );
    assert_eq!(token_verdict(&state), Ok(true));
}

#[test]
fn a_new_balance_counts_from_zero() {
    let state = balances(&[("t", "a", 10)], &[("t", "a", Some(4)), ("t", "b", Some(6))]);
    assert_eq!(token_verdict(&state), Ok(true));
}

#[test]
fn the_largest_balances_add_up_without_overflow() {
    let state = balances(
        &[("t", "a", u64::MAX), ("t", "b", u64::MAX), ("t", "c", 0)],
        &[("t", "a", Some(u64::MAX)), ("t", "b", Some(0)), ("t", "c", Some(u64::MAX))],
    );
    assert_eq!(token_verdict(&state), Ok(true));
    let state = balances(
        &[("t", "a", u64::MAX), ("t", "b", u64::MAX)],
        &[("t", "a", Some(u64::MAX)), ("t", "b", Some(u64::MAX - 1))],
    );
    assert_eq!(token_verdict(&state), Ok(false));
}

#[test]
fn keys_that_are_no_balances_do_not_count() {
    let mut state = balances(&[("t", "a", 10)], &[("t", "a", Some(10))]);
    state.writes.put(key("#t/other"), vec![1, 2, 3]);
    state.writes.put(key("plain"), vec![]);
    assert_eq!(token_verdict(&state), Ok(true));
    assert_eq!(token_verdict(&empty()), Ok(true));
}

#[test]
fn a_balance_that_is_no_amount_is_a_decode_error() {
    let mut state = balances(&[("t", "a", 10)], &[("t", "a", Some(10))]);
    state.writes.put(balance_key(&address("t"), &address("b")), vec![1, 2, 3]);
    assert_eq!(token_verdict(&state), Err(Error::DecodeError));
    let mut state = balances(&[], &[("t", "a", Some(0))]);
    state.storage.set(balance_key(&address("t"), &address("a")), vec![]);
    assert_eq!(token_verdict(&state), Err(Error::DecodeError));
}

#[test]
fn the_token_predicate_is_reached_by_reference() {
    let state = balances(&[("t", "c", 100)], &[("t", "c", Some(150))]);
    let mut limiter = Limiter::new(10);
    assert_eq!(run(&state, &mut limiter, 1, b"token", b""), Outcome::Reject);
    let state = balances(&[("t", "c", 100)], &[("t", "c", Some(100))]);
    assert_eq!(run(&state, &mut limiter, 1, b"token", b""), Outcome::Accept);
    let mut state = balances(&[], &[]);
    state.writes.put(balance_key(&address("t"), &address("b")), vec![1]);
    assert_eq!(run(&state, &mut limiter, 1, b"token", b""), Outcome::Failed(Error::DecodeError));
}

#[test]
fn verdicts_are_made_by_accept_and_reject() {
    assert_eq!(accept(), Outcome::Accept);
    assert_eq!(reject(), Outcome::Reject);
}

#[test]
fn vp_eval_hands_its_input_on() {
    let mut state = empty();
    state.storage.set(key("a"), vec![0, 0, 0, 0]);
    let ctx = VpCtx::new(&state.storage, &state.writes, &state.verifiers);
    let mut limiter = Limiter::new(10);
    assert_eq!(
        vp_eval(&registry(), &ctx, &mut limiter, 1, &request(b"read", b"a")),
        Outcome::Accept
    );
    assert_eq!(limiter.remaining, 9);
    assert_eq!(
        vp_eval(&registry(), &ctx, &mut limiter, 1, &request(b"read", b"b")),
        Outcome::Failed(Error::LogicError(Fault::MissingValue))
    );
    assert_eq!(
        vp_eval(&registry(), &ctx, &mut limiter, 0, &request(b"read", b"a")),
        Outcome::Failed(Error::RecursionLimitExceeded)
    );
    assert_eq!(
        vp_eval(&registry(), &ctx, &mut limiter, 1, b""),
        Outcome::Failed(Error::DecodeError)
    );
    assert_eq!(limiter.remaining, 8);
}

#[test]
fn a_context_evaluates_against_itself() {
    let mut state = empty();
    state.storage.set(key("a"), vec![0, 0, 0, 0]);
    state.writes.delete(key("a"));
    let ctx = VpCtx::new(&state.storage, &state.writes, &state.verifiers);
    let mut limiter = Limiter::new(10);
    // The evaluated predicate reads the state before, as its caller would.
    assert_eq!(ctx.eval(&registry(), &mut limiter, 2, b"read", b"a"), Outcome::Accept);
    assert_eq!(
        ctx.eval(&registry(), &mut limiter, 2, b"eval", &request(b"read", b"a")),
        Outcome::Accept
    );
    assert_eq!(limiter.remaining, 7);
}

#[test]
fn faults_have_messages() {
    assert_eq!(Fault::NoPayload.message(), "no data provided");
    assert_eq!(Fault::KeyNotText.message(), "getting key");
    let all = [
        Fault::NoPayload,
        Fault::KeyNotText,
        Fault::MissingValue,
        Fault::ShortBuffer,
        Fault::AmountOverflow,
        Fault::NoPredicate,
        Fault::UnknownPredicate,
    ];
    for (i, a) in all.iter().enumerate() {
        assert!(!a.message().is_empty());
        for b in &all[i + 1..] {
            assert_ne!(a.message(), b.message());
        }
    }
}
