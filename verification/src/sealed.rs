//! The marker that keeps [`crate::init::Termination`] to the types of this
//! crate.

use vstd::prelude::*;

verus! {

/// Implemented only by the types whose results a program may return.
pub trait Sealed {}

} // verus!
