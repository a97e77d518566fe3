use dstd::sync::{
    claim_outcome, lock_step, once_step, register_outcome, unlock_step, wake_after_complete,
    Condvar, LockStep, Once, OnceOutcome, OnceStep, RawMutex, UnlockStep, COMPLETE, CONTENDED,
    LOCKED, RUNNING, RUNNING_CONTENDED, UNINIT, UNLOCKED,
};

#[test]
fn mutex_decisions() {
    assert_eq!(lock_step(UNLOCKED), LockStep::Acquired);
    assert_eq!(lock_step(LOCKED), LockStep::Wait);
    assert_eq!(lock_step(CONTENDED), LockStep::Wait);
    assert_eq!(unlock_step(LOCKED), UnlockStep::Released);
    assert_eq!(unlock_step(CONTENDED), UnlockStep::Wake);
    assert_eq!(unlock_step(UNLOCKED), UnlockStep::NotLocked);
    assert_eq!(unlock_step(7), UnlockStep::Invalid);
}

#[test]
fn raw_mutex_rounds() {
    let m = RawMutex::new();
    assert!(m.try_lock());
    assert!(!m.try_lock());
    assert_eq!(m.release(), UnlockStep::Released);
    assert_eq!(m.release(), UnlockStep::NotLocked);
    assert_eq!(m.lock_round(), LockStep::Acquired);
    assert_eq!(m.lock_round(), LockStep::Wait);
    assert_eq!(m.release(), UnlockStep::Wake);
    assert!(m.try_lock());
}

#[test]
fn once_decisions() {
    assert_eq!(once_step(UNINIT), OnceStep::Claim);
    assert_eq!(once_step(RUNNING), OnceStep::Register);
    assert_eq!(once_step(RUNNING_CONTENDED), OnceStep::Wait);
    assert_eq!(once_step(COMPLETE), OnceStep::Done);
    assert_eq!(once_step(9), OnceStep::Invalid);
    assert_eq!(claim_outcome(Ok(0)), OnceOutcome::Run);
    assert_eq!(claim_outcome(Err(3)), OnceOutcome::Retry(3));
    assert_eq!(register_outcome(Ok(1)), OnceOutcome::Wait);
    assert_eq!(register_outcome(Err(2)), OnceOutcome::Wait);
    assert_eq!(register_outcome(Err(3)), OnceOutcome::Retry(3));
    assert!(wake_after_complete(RUNNING_CONTENDED));
    assert!(!wake_after_complete(RUNNING));
}

#[test]
fn once_runs_through_its_states() {
    let o = Once::new();
    assert!(!o.is_completed());
    assert_eq!(o.state(), UNINIT);
    assert_eq!(o.try_claim(), OnceOutcome::Run);
    assert_eq!(o.try_claim(), OnceOutcome::Retry(RUNNING));
    // the weak exchange may fail spuriously and report the unchanged state
    let mut r = o.try_register();
    while r == OnceOutcome::Retry(RUNNING) {
        r = o.try_register();
    }
    assert_eq!(r, OnceOutcome::Wait);
    assert_eq!(o.state(), RUNNING_CONTENDED);
    assert!(o.complete());
    assert!(o.is_completed());
    assert!(Once::new_complete().is_completed());
}

#[test]
fn condvar_sequence_advances() {
    let c = Condvar::new();
    assert_eq!(c.sequence(), 0);
    c.advance();
    c.advance();
    assert_eq!(c.sequence(), 2);
}
