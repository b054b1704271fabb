//! The failures that an attempt to apply a transaction can report.

use vstd::prelude::*;

verus! {

/// Why application logic gave up.
#[derive(Clone, Copy, Debug, PartialEq, Eq, Structural)]
pub enum Fault {
    /// The envelope carries no payload although the logic needs one.
    NoPayload,
    /// The payload is to be the text of a key and is not well-formed UTF-8.
    KeyNotText,
    /// A storage slot that the logic relies on holds no value.
    MissingValue,
    /// The logic looked at more of a buffer than it had allocated.
    ShortBuffer,
    /// An amount left the range of its fixed-width representation.
    AmountOverflow,
    /// No validity predicate is stored for an address that must validate.
    NoPredicate,
    /// A predicate reference names no known behaviour.
    UnknownPredicate,
}

/// What is reported of a fault, in words.
pub open spec fn message_of(fault: Fault) -> Seq<char> {
    match fault {
        Fault::NoPayload => "no data provided"@,
        Fault::KeyNotText => "getting key"@,
        Fault::MissingValue => "no value under the key"@,
        Fault::ShortBuffer => "fewer bytes allocated than looked at"@,
        Fault::AmountOverflow => "amount out of range"@,
        Fault::NoPredicate => "no validity predicate for the address"@,
        Fault::UnknownPredicate => "unknown validity predicate"@,
    }
}

impl Fault {
    /// What is reported of this fault, in words.
    pub fn message(&self) -> (out: &'static str)
        ensures
            out@ == message_of(*self),
    {
        match self {
            Fault::NoPayload => "no data provided",
            Fault::KeyNotText => "getting key",
            Fault::MissingValue => "no value under the key",
            Fault::ShortBuffer => "fewer bytes allocated than looked at",
            Fault::AmountOverflow => "amount out of range",
            Fault::NoPredicate => "no validity predicate for the address",
            Fault::UnknownPredicate => "unknown validity predicate",
        }
    }
}

/// Every way in which decoding, executing or validating a transaction fails.
#[derive(Clone, Copy, Debug, PartialEq, Eq, Structural)]
pub enum Error {
    /// An envelope or a typed payload is malformed.
    DecodeError,
    /// A storage key's text is malformed.
    InvalidKeyFormat,
    /// Application logic signalled a fatal condition.
    LogicError(Fault),
    /// The execution unit consumed more than its budget.
    ResourceExceeded,
    /// Nested evaluation went deeper than the engine allows.
    RecursionLimitExceeded,
    /// The backing store handed over data that cannot come from a sound store.
    StorageError,
}

} // verus!
