//! The lock words of the futex-based synchronization primitives, and the
//! decisions taken on what the atomic operations on them return.
//!
//! Waiting on a word and waking its waiters are operating-system calls; the
//! caller performs them when a decision below asks for it.

use vstd::prelude::*;
use std::sync::atomic::{AtomicU32, Ordering};

verus! {

/// Mutex word: nobody holds the lock.
pub const UNLOCKED: u32 = 0;
/// Mutex word: the lock is held and nobody waits for it.
pub const LOCKED: u32 = 1;
/// Mutex word: the lock is held and others may wait for it.
pub const CONTENDED: u32 = 2;

/// What a thread does after it marked the mutex contended.
#[derive(Debug, Clone, Copy, PartialEq, Eq, Structural)]
pub enum LockStep {
    /// The lock was free: the thread holds it now.
    Acquired,
    /// The lock was held: wait while the word is `CONTENDED`, then retry.
    Wait,
}

/// What a thread does after it released the mutex.
#[derive(Debug, Clone, Copy, PartialEq, Eq, Structural)]
pub enum UnlockStep {
    /// Nobody waited: nothing more to do.
    Released,
    /// Others may wait: wake one of them.
    Wake,
    /// The mutex was not locked: unlocking it is a bug of the caller.
    NotLocked,
    /// The word held no valid state.
    Invalid,
}

/// The decision after swapping `CONTENDED` into the word, which held
/// `previous`.
pub fn lock_step(previous: u32) -> (r: LockStep)
    ensures
        r == (if previous == UNLOCKED { LockStep::Acquired } else { LockStep::Wait }),
{
    if previous == UNLOCKED {
        LockStep::Acquired
    } else {
        LockStep::Wait
    }
}

/// The decision after swapping `UNLOCKED` into the word, which held
/// `previous`.
pub fn unlock_step(previous: u32) -> (r: UnlockStep)
    ensures
        r == (if previous == LOCKED {
            UnlockStep::Released
        } else if previous == CONTENDED {
            UnlockStep::Wake
        } else if previous == UNLOCKED {
            UnlockStep::NotLocked
        } else {
            UnlockStep::Invalid
        }),
{
    if previous == LOCKED {
        UnlockStep::Released
    } else if previous == CONTENDED {
        UnlockStep::Wake
    } else if previous == UNLOCKED {
        UnlockStep::NotLocked
    } else {
        UnlockStep::Invalid
    }
}

/// A mutual-exclusion lock without data: one word, `UNLOCKED`, `LOCKED` or
/// `CONTENDED`.
pub struct RawMutex {
    word: AtomicU32,
}

impl RawMutex {
    /// An unlocked mutex.
    pub fn new() -> RawMutex {
        RawMutex { word: AtomicU32::new(UNLOCKED) }
    }

    /// Takes the lock if it is free, without waiting; `true` when taken.
    pub fn try_lock(&self) -> bool {
        self.word.compare_exchange(UNLOCKED, LOCKED, Ordering::Acquire, Ordering::Relaxed).is_ok()
    }

    /// One round of taking a held lock: marks it contended and decides from
    /// what the word held.
    pub fn lock_round(&self) -> LockStep {
        let previous = self.word.swap(CONTENDED, Ordering::Acquire);
        lock_step(previous)
    }

    /// Releases the lock and decides from what the word held.
    pub fn release(&self) -> UnlockStep {
        let previous = self.word.swap(UNLOCKED, Ordering::Release);
        unlock_step(previous)
    }

    /// The lock word of this mutex.
    pub closed spec fn lock_word(&self) -> AtomicU32 {
        self.word
    }

    /// The word that waiters wait on: the lock word of this mutex.
    pub fn word(&self) -> (r: &AtomicU32)
        ensures
            *r == self.lock_word(),
    {
        &self.word
    }
}

/// Once state: the initialization has not started.
pub const UNINIT: u32 = 0;
/// Once state: the initialization is running.
pub const RUNNING: u32 = 1;
/// Once state: the initialization is running and others wait for it.
pub const RUNNING_CONTENDED: u32 = 2;
/// Once state: the initialization has finished.
pub const COMPLETE: u32 = 3;

/// What the slow path of `call_once` does in a given state.
#[derive(Debug, Clone, Copy, PartialEq, Eq, Structural)]
pub enum OnceStep {
    /// Try to claim the initialization (`UNINIT` to `RUNNING`).
    Claim,
    /// Try to register as a waiter (`RUNNING` to `RUNNING_CONTENDED`).
    Register,
    /// Wait while the state is `RUNNING_CONTENDED`, then reload it.
    Wait,
    /// The initialization is done.
    Done,
    /// The state is not one of the four.
    Invalid,
}

/// The outcome of trying to claim or to register.
#[derive(Debug, Clone, Copy, PartialEq, Eq, Structural)]
pub enum OnceOutcome {
    /// The claim succeeded: run the initialization, then complete.
    Run,
    /// Registered (or someone else did): wait, then reload the state.
    Wait,
    /// The state had changed to the given value: decide again from it.
    Retry(u32),
}

/// The step of the slow path in `state`.
pub fn once_step(state: u32) -> (r: OnceStep)
    ensures
        r == (if state == UNINIT {
            OnceStep::Claim
        } else if state == RUNNING {
            OnceStep::Register
        } else if state == RUNNING_CONTENDED {
            OnceStep::Wait
        } else if state == COMPLETE {
            OnceStep::Done
        } else {
            OnceStep::Invalid
        }),
{
    if state == UNINIT {
        OnceStep::Claim
    } else if state == RUNNING {
        OnceStep::Register
    } else if state == RUNNING_CONTENDED {
        OnceStep::Wait
    } else if state == COMPLETE {
        OnceStep::Done
    } else {
        OnceStep::Invalid
    }
}

/// The outcome of the compare-exchange from `UNINIT` to `RUNNING`.
pub fn claim_outcome(cas: core::result::Result<u32, u32>) -> (r: OnceOutcome)
    ensures
        r == (match cas {
            Ok(_) => OnceOutcome::Run,
            Err(actual) => OnceOutcome::Retry(actual),
        }),
{
    match cas {
        Ok(_) => OnceOutcome::Run,
        Err(actual) => OnceOutcome::Retry(actual),
    }
}

/// The outcome of the compare-exchange from `RUNNING` to
/// `RUNNING_CONTENDED`: wait when it succeeded or when another waiter had
/// registered already.
pub fn register_outcome(cas: core::result::Result<u32, u32>) -> (r: OnceOutcome)
    ensures
        r == (match cas {
            Ok(_) => OnceOutcome::Wait,
            Err(actual) => if actual == RUNNING_CONTENDED {
                OnceOutcome::Wait
            } else {
                OnceOutcome::Retry(actual)
            },
        }),
{
    match cas {
        Ok(_) => OnceOutcome::Wait,
        Err(actual) => {
            if actual == RUNNING_CONTENDED {
                OnceOutcome::Wait
            } else {
                OnceOutcome::Retry(actual)
            }
        },
    }
}

/// Whether waiters must be woken after the state went to `COMPLETE` from
/// `previous`.
pub fn wake_after_complete(previous: u32) -> (r: bool)
    ensures
        r == (previous == RUNNING_CONTENDED),
{
    previous == RUNNING_CONTENDED
}

/// A primitive that runs an initialization once for all threads.
pub struct Once {
    state: AtomicU32,
}

impl Once {
    /// A `Once` whose initialization has not run.
    pub fn new() -> Once {
        Once { state: AtomicU32::new(UNINIT) }
    }

    /// A `Once` whose initialization counts as done.
    pub fn new_complete() -> Once {
        Once { state: AtomicU32::new(COMPLETE) }
    }

    /// The current state.
    pub fn state(&self) -> u32 {
        self.state.load(Ordering::Acquire)
    }

    /// Whether the initialization has finished.
    pub fn is_completed(&self) -> bool {
        self.state.load(Ordering::Acquire) == COMPLETE
    }

    /// Tries to claim the initialization: the outcome is to run it, or to
    /// decide again from the state the word held.
    pub fn try_claim(&self) -> (r: OnceOutcome)
        ensures
            r is Run || r is Retry,
    {
        let cas = self.state.compare_exchange(UNINIT, RUNNING, Ordering::Acquire, Ordering::Acquire);
        claim_outcome(cas)
    }

    /// Tries to register as a waiter of a running initialization: the outcome
    /// is to wait, or to decide again from the state the word held; never to
    /// run the initialization.
    pub fn try_register(&self) -> (r: OnceOutcome)
        ensures
            r is Wait || r is Retry,
    {
        let cas = self.state.compare_exchange_weak(
            RUNNING,
            RUNNING_CONTENDED,
            Ordering::Relaxed,
            Ordering::Acquire,
        );
        register_outcome(cas)
    }

    /// Marks the initialization done; `true` when waiters must be woken.
    pub fn complete(&self) -> bool {
        let previous = self.state.swap(COMPLETE, Ordering::Release);
        wake_after_complete(previous)
    }

    /// The state word of this `Once`.
    pub closed spec fn state_word(&self) -> AtomicU32 {
        self.state
    }

    /// The word that waiters wait on: the state word of this `Once`.
    pub fn word(&self) -> (r: &AtomicU32)
        ensures
            *r == self.state_word(),
    {
        &self.state
    }
}

/// A condition variable: a sequence word that every notification advances.
pub struct Condvar {
    word: AtomicU32,
}

impl Condvar {
    /// A condition variable nobody has notified.
    pub fn new() -> Condvar {
        Condvar { word: AtomicU32::new(0) }
    }

    /// The current sequence value, read before waiting.
    pub fn sequence(&self) -> u32 {
        self.word.load(Ordering::Relaxed)
    }

    /// Advances the sequence (wrapping), as every notification does before it
    /// wakes waiters.
    pub fn advance(&self) {
        self.word.fetch_add(1, Ordering::Relaxed);
    }

    /// The sequence word of this condition variable.
    pub closed spec fn sequence_word(&self) -> AtomicU32 {
        self.word
    }

    /// The word that waiters wait on: the sequence word of this condition
    /// variable.
    pub fn word(&self) -> (r: &AtomicU32)
        ensures
            *r == self.sequence_word(),
    {
        &self.word
    }
}

} // verus!
