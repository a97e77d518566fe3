//! What a program's `main` returns, and the exit code it reports.

use vstd::prelude::*;
use crate::sealed::Sealed;

verus! {

/// A value that `main` may return; `report` turns it into the exit code.
///
/// For an error, the caller prints `Error: ` and the error's debug form before
/// exiting with the code.
pub trait Termination: Sealed {
    /// The process exit code for this value.
    fn report(&self) -> i32;
}

impl Sealed for () {}

impl Termination for () {
    /// A program that returns nothing succeeded.
    fn report(&self) -> (r: i32)
        ensures
            r == 0,
    {
        0
    }
}

impl<T, E> Sealed for Result<T, E> {}

impl<T, E> Termination for Result<T, E> {
    /// Success gives 0, an error gives 1.
    fn report(&self) -> (r: i32)
        ensures
            r == (if self is Ok { 0i32 } else { 1i32 }),
    {
        match self {
            Ok(_) => 0,
            Err(_) => 1,
        }
    }
}

} // verus!
