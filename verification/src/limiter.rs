//! The budget of one execution unit.
//!
//! A transaction body has a budget of its own. A validity predicate shares one
//! budget with everything that it evaluates, however deep: consumption adds
//! up, and nothing gives budget back.

use vstd::prelude::*;
use crate::error::Error;

verus! {

/// What is left of a budget, and whether it was ever overrun.
#[derive(Clone, Copy, Debug, PartialEq, Eq, Structural)]
pub struct Limiter {
    /// The units that may still be consumed.
    pub remaining: u64,
    /// Whether a charge went over the budget. Once set it stays set, and
    /// every later charge is refused.
    pub tripped: bool,
}

impl Limiter {
    /// Whether a charge of `amount` stays within the budget.
    pub open spec fn admits(self, amount: u64) -> bool {
        !self.tripped && amount <= self.remaining
    }

    /// The limiter after a charge of `amount`: less is left where the charge
    /// is admitted, and the limiter is tripped where it is not.
    pub open spec fn charged(self, amount: u64) -> Limiter {
        if self.admits(amount) {
            Limiter { remaining: (self.remaining - amount) as u64, tripped: false }
        } else {
            Limiter { remaining: self.remaining, tripped: true }
        }
    }

    /// A limiter with the whole of `ceiling` left.
    pub fn new(ceiling: u64) -> (out: Limiter)
        ensures
            out == (Limiter { remaining: ceiling, tripped: false }),
    {
        Limiter { remaining: ceiling, tripped: false }
    }

    /// Consumes `amount` units. A charge that goes over what is left trips
    /// the limiter and consumes nothing.
    pub fn charge(&mut self, amount: u64) -> (out: Result<(), Error>)
        ensures
            *final(self) == old(self).charged(amount),
            out == if old(self).admits(amount) {
                Ok::<(), Error>(())
            } else {
                Err::<(), Error>(Error::ResourceExceeded)
            },
    {
        if self.tripped || amount > self.remaining {
            self.tripped = true;
            Err(Error::ResourceExceeded)
        } else {
            self.remaining = self.remaining - amount;
            Ok(())
        }
    }
}

/// No charge leaves more than there was, and a tripped limiter stays tripped.
pub proof fn lemma_charge_never_refills(limiter: Limiter, amount: u64)
    ensures
        limiter.charged(amount).remaining <= limiter.remaining,
        limiter.tripped ==> limiter.charged(amount).tripped,
        limiter.admits(amount) && amount > 0 ==> limiter.charged(amount).remaining
            < limiter.remaining,
{
}

} // verus!
