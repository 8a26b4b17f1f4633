//! Keeps the set of status markers closed.

use vstd::prelude::*;

verus! {

/// Implemented by the status markers of this crate and by nothing else.
pub trait Sealed {

}

} // verus!
