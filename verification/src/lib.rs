//! Deterministic transaction execution and validation for a key-value ledger.
//!
//! A transaction is submitted in a signed [`envelope`]. Its body runs against
//! a [`context`] that stages writes on top of committed [`storage`]. For
//! every address that the staged writes concern, a validity [`predicate`]
//! then judges the change: it sees the state before the transaction and the
//! state after it, may evaluate other predicates, and draws on a bounded
//! budget ([`limiter`]). The [`protocol`] applies the writes only where the
//! body succeeded and every predicate accepted.
//!
//! The same bytes give the same result wherever they are applied: every
//! function here is a function of its arguments alone.

pub mod error;
pub mod wire;
pub mod envelope;
pub mod order;
pub mod key;
pub mod keymap;
pub mod storage;
pub mod verifiers;
pub mod limiter;
pub mod context;
pub mod token;
pub mod predicate;
pub mod transaction;
pub mod protocol;
