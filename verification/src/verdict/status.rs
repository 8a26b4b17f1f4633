//! Error status: whether a failed operation is worth trying again.
//!
//! - `Dynamic`: status not yet determined
//! - `Temporary`: retryable error (may succeed on retry)
//! - `Persistent`: was temporary, retries exhausted
//! - `Permanent`: never retryable (invalid input, not found, etc.)

use vstd::prelude::*;
use crate::verdict::sealed::Sealed;

verus! {

/// Runtime status value.
#[non_exhaustive]
#[derive(Debug, Clone, Copy, PartialEq, Eq, Hash, Structural)]
pub enum ErrorStatusValue {
    /// Error is permanent and should not be retried.
    Permanent,
    /// Error is temporary and may succeed on retry.
    Temporary,
    /// Error was temporary but retries are exhausted.
    Persistent,
}

impl Default for ErrorStatusValue {
    fn default() -> (value: Self)
        ensures
            value == ErrorStatusValue::Permanent,
    {
        ErrorStatusValue::Permanent
    }
}

impl ErrorStatusValue {
    /// The number that stands for a status.
    pub open spec fn code(self) -> u32 {
        match self {
            ErrorStatusValue::Permanent => 0,
            ErrorStatusValue::Temporary => 1,
            ErrorStatusValue::Persistent => 2,
        }
    }

    /// The name of a status.
    pub open spec fn name(self) -> Seq<char> {
        match self {
            ErrorStatusValue::Permanent => "permanent"@,
            ErrorStatusValue::Temporary => "temporary"@,
            ErrorStatusValue::Persistent => "persistent"@,
        }
    }

    /// Whether this status indicates the error may be retried.
    pub fn is_retryable(&self) -> (retryable: bool)
        ensures
            retryable == (*self == ErrorStatusValue::Temporary),
    {
        matches!(self, Self::Temporary)
    }

    /// Convert from u32.
    pub fn from_u32(value: u32) -> (status: Option<Self>)
        ensures
            status == (if value == 0 {
                Some(ErrorStatusValue::Permanent)
            } else if value == 1 {
                Some(ErrorStatusValue::Temporary)
            } else if value == 2 {
                Some(ErrorStatusValue::Persistent)
            } else {
                None
            }),
            status matches Some(s) ==> s.code() == value,
    {
        match value {
            0 => Some(Self::Permanent),
            1 => Some(Self::Temporary),
            2 => Some(Self::Persistent),
            _ => None,
        }
    }

    /// Get string representation.
    pub fn as_str(&self) -> (name: &'static str)
        ensures
            name@ == self.name(),
    {
        match self {
            Self::Permanent => "permanent",
            Self::Temporary => "temporary",
            Self::Persistent => "persistent",
        }
    }
}

/// Every status has a number of its own, and `from_u32` finds the status
/// again from it.
pub proof fn lemma_code_round_trip(status: ErrorStatusValue)
    ensures
        status.code() <= 2,
        forall|other: ErrorStatusValue| other.code() == status.code() ==> other == status,
{
}

/// Status not yet determined at compile time.
#[derive(Debug, Clone, Copy)]
pub struct Dynamic;

/// Temporary/retryable error.
#[derive(Debug, Clone, Copy)]
pub struct Temporary;

/// Was temporary, retries exhausted.
#[derive(Debug, Clone, Copy)]
pub struct Persistent;

/// Permanent/non-retryable error.
#[derive(Debug, Clone, Copy)]
pub struct Permanent;

impl Sealed for Dynamic {

}

impl Sealed for Temporary {

}

impl Sealed for Persistent {

}

impl Sealed for Permanent {

}

/// Trait for status typestate markers.
pub trait Status: Sealed + Copy {
    /// The status value, where the marker fixes it.
    spec fn spec_value() -> Option<ErrorStatusValue>;

    /// The status value if known at compile time.
    fn value() -> (value: Option<ErrorStatusValue>)
        ensures
            value == Self::spec_value(),
    ;

    /// Whether this status is retryable, if known at compile time.
    fn is_retryable() -> (retryable: Option<bool>)
        ensures
            retryable == (match Self::spec_value() {
                Some(v) => Some(v == ErrorStatusValue::Temporary),
                None => None,
            }),
    ;

    /// Get the status name for debugging.
    fn name() -> &'static str;
}

impl Status for Dynamic {
    open spec fn spec_value() -> Option<ErrorStatusValue> {
        None
    }

    fn value() -> (value: Option<ErrorStatusValue>) {
        None
    }

    fn is_retryable() -> (retryable: Option<bool>) {
        None
    }

    fn name() -> (name: &'static str)
        ensures
            name@ == "Dynamic"@,
    {
        "Dynamic"
    }
}

impl Status for Temporary {
    open spec fn spec_value() -> Option<ErrorStatusValue> {
        Some(ErrorStatusValue::Temporary)
    }

    fn value() -> (value: Option<ErrorStatusValue>) {
        Some(ErrorStatusValue::Temporary)
    }

    fn is_retryable() -> (retryable: Option<bool>) {
        Some(true)
    }

    fn name() -> (name: &'static str)
        ensures
            name@ == "Temporary"@,
    {
        "Temporary"
    }
}

impl Status for Persistent {
    open spec fn spec_value() -> Option<ErrorStatusValue> {
        Some(ErrorStatusValue::Persistent)
    }

    fn value() -> (value: Option<ErrorStatusValue>) {
        Some(ErrorStatusValue::Persistent)
    }

    fn is_retryable() -> (retryable: Option<bool>) {
        Some(false)
    }

    fn name() -> (name: &'static str)
        ensures
            name@ == "Persistent"@,
    {
        "Persistent"
    }
}

impl Status for Permanent {
    open spec fn spec_value() -> Option<ErrorStatusValue> {
        Some(ErrorStatusValue::Permanent)
    }

    fn value() -> (value: Option<ErrorStatusValue>) {
        Some(ErrorStatusValue::Permanent)
    }

    fn is_retryable() -> (retryable: Option<bool>) {
        Some(false)
    }

    fn name() -> (name: &'static str)
        ensures
            name@ == "Permanent"@,
    {
        "Permanent"
    }
}

/// Marker trait for terminal (non-retryable) states.
pub trait Terminal: Status {

}

impl Terminal for Persistent {

}

impl Terminal for Permanent {

}

/// Marker trait for non-terminal states.
pub trait NonTerminal: Status {

}

impl NonTerminal for Dynamic {

}

impl NonTerminal for Temporary {

}

} // verus!
