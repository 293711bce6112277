use venom_db::concurrency::lock_manager::{LockManager, LockMode};
use venom_db::concurrency::transaction::Rid;

fn rid(p: u32, s: u16) -> Rid {
    Rid {
        page_id: p,
        slot_id: s,
    }
}

#[test]
fn test_shared_locks_compatible() {
    let mut lm = LockManager::new();
    // Two txns can both hold shared locks
    assert!(lm.acquire(1, rid(0, 0), LockMode::Shared).unwrap());
    assert!(lm.acquire(2, rid(0, 0), LockMode::Shared).unwrap());
}

#[test]
fn test_exclusive_blocks_shared() {
    let mut lm = LockManager::new();
    // txn 1 holds exclusive
    assert!(lm.acquire(1, rid(0, 0), LockMode::Exclusive).unwrap());
    // txn 2 wants shared — must wait
    let result = lm.acquire(2, rid(0, 0), LockMode::Shared).unwrap();
    assert!(!result); // queued, not granted
}

#[test]
fn test_release_grants_waiting() {
    let mut lm = LockManager::new();
    assert!(lm.acquire(1, rid(0, 0), LockMode::Exclusive).unwrap());
    // txn 2 queued
    lm.acquire(2, rid(0, 0), LockMode::Shared).unwrap();
    // txn 1 releases
    lm.release_all(1);
    // txn 2 should now be granted
    assert!(lm.holds_lock(2, rid(0, 0), &LockMode::Shared));
}

#[test]
fn test_deadlock_detection() {
    let mut lm = LockManager::new();
    // txn 1 holds lock on row A
    lm.acquire(1, rid(0, 0), LockMode::Exclusive).unwrap();
    // txn 2 holds lock on row B
    lm.acquire(2, rid(0, 1), LockMode::Exclusive).unwrap();
    // txn 1 waits for row B
    lm.acquire(1, rid(0, 1), LockMode::Exclusive).unwrap();
    // txn 2 waits for row A — deadlock!
    let result = lm.acquire(2, rid(0, 0), LockMode::Exclusive);
    assert!(result.is_err());
    assert!(result.unwrap_err().contains("deadlock"));
}

#[test]
fn test_multiple_independent_rows() {
    let mut lm = LockManager::new();
    // Different rows — no conflict
    assert!(lm.acquire(1, rid(0, 0), LockMode::Exclusive).unwrap());
    assert!(lm.acquire(2, rid(0, 1), LockMode::Exclusive).unwrap());
    assert!(lm.acquire(3, rid(1, 0), LockMode::Shared).unwrap());
}

#[test]
fn test_release_clears_locks() {
    let mut lm = LockManager::new();
    lm.acquire(1, rid(0, 0), LockMode::Exclusive).unwrap();
    assert_eq!(lm.lock_count(), 1);
    lm.release_all(1);
    assert_eq!(lm.lock_count(), 0);
}

#[test]
fn test_txn_can_reacquire_own_lock() {
    let mut lm = LockManager::new();
    // Same txn acquiring same lock twice is idempotent
    assert!(lm.acquire(1, rid(0, 0), LockMode::Shared).unwrap());
    assert!(lm.acquire(1, rid(0, 0), LockMode::Shared).unwrap());
    assert_eq!(lm.lock_count(), 1);
}
