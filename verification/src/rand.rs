//! The operating system's source of random bytes.

use vstd::prelude::*;

verus! {

/// A handle to the operating system's random number generator; the bytes are
/// read from it by the caller (`getrandom` on Unix).
#[derive(Debug, Clone, Copy)]
pub struct RandomDevice(());

impl RandomDevice {
    /// A handle to the generator.
    pub fn new() -> RandomDevice {
        RandomDevice(())
    }
}

} // verus!
