//! The Actionable trait for semantic error classification.

use vstd::prelude::*;
use crate::verdict::status::ErrorStatusValue;

verus! {

/// Errors that provide semantic information for programmatic handling.
///
/// Implement this trait to declare whether an error is retryable.
pub trait Actionable {
    /// The status of this error.
    fn status_value(&self) -> ErrorStatusValue;

    /// Convenience method: is this error retryable? It is if the status
    /// that `status_value` gives is `Temporary`.
    fn is_retryable(&self) -> (retryable: bool)
        ensures
            exists|value: ErrorStatusValue|
                #[trigger] call_ensures(Self::status_value, (self,), value) && retryable == (value
                    == ErrorStatusValue::Temporary),
    {
        self.status_value().is_retryable()
    }
}

impl<T: Actionable + ?Sized> Actionable for &T {
    fn status_value(&self) -> (value: ErrorStatusValue)
        ensures
            call_ensures(T::status_value, (*self,), value),
    {
        (**self).status_value()
    }
}

impl<T: Actionable + ?Sized> Actionable for Box<T> {
    fn status_value(&self) -> (value: ErrorStatusValue)
        ensures
            call_ensures(T::status_value, (&**self,), value),
    {
        (**self).status_value()
    }
}

/// A status is its own classification.
impl Actionable for ErrorStatusValue {
    fn status_value(&self) -> (value: ErrorStatusValue)
        ensures
            value == *self,
    {
        *self
    }
}

} // verus!
