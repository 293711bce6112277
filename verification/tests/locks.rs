use venom_db::concurrency::lock_manager::{LockManager, LockMode};
use venom_db::concurrency::transaction::{Rid, Transaction, TxnState, UndoOp};

fn rid(n: u32) -> Rid {
    Rid { page_id: n, slot_id: 0 }
}

#[test]
fn waiting_for_two_transactions_is_no_deadlock() {
    let mut lm = LockManager::new();
    // 2 and 3 both wait for 1, and 4 waits for 2 and 3.
    assert!(lm.acquire(1, rid(0), LockMode::Exclusive).unwrap());
    assert!(lm.acquire(2, rid(1), LockMode::Shared).unwrap());
    assert!(lm.acquire(3, rid(1), LockMode::Shared).unwrap());
    assert!(!lm.acquire(2, rid(0), LockMode::Exclusive).unwrap());
    assert!(!lm.acquire(3, rid(0), LockMode::Exclusive).unwrap());
    assert!(!lm.acquire(4, rid(1), LockMode::Exclusive).unwrap());
}

#[test]
fn a_cycle_of_three_is_a_deadlock() {
    let mut lm = LockManager::new();
    for n in 1..4 {
        assert!(lm.acquire(n, rid(n), LockMode::Exclusive).unwrap());
    }
    assert!(!lm.acquire(1, rid(2), LockMode::Exclusive).unwrap());
    assert!(!lm.acquire(2, rid(3), LockMode::Exclusive).unwrap());
    assert_eq!(
        lm.acquire(3, rid(1), LockMode::Exclusive),
        Err("deadlock detected: txn 3 is in a wait cycle".to_string())
    );
    // The refused request waits for nothing.
    lm.release_all(3);
    assert!(lm.holds_lock(2, rid(3), &LockMode::Exclusive));
}

#[test]
fn a_shared_lock_can_become_exclusive() {
    let mut lm = LockManager::new();
    assert!(lm.acquire(1, rid(0), LockMode::Shared).unwrap());
    assert!(lm.acquire(1, rid(0), LockMode::Exclusive).unwrap());
    assert!(lm.holds_lock(1, rid(0), &LockMode::Exclusive));
    assert!(lm.holds_lock(1, rid(0), &LockMode::Shared));
    assert!(!lm.acquire(2, rid(0), LockMode::Shared).unwrap());
    assert!(!lm.holds_lock(2, rid(0), &LockMode::Shared));
}

#[test]
fn a_released_lock_goes_to_those_that_wait() {
    let mut lm = LockManager::new();
    assert!(lm.acquire(1, rid(0), LockMode::Exclusive).unwrap());
    assert!(!lm.acquire(2, rid(0), LockMode::Shared).unwrap());
    assert!(!lm.acquire(3, rid(0), LockMode::Shared).unwrap());
    lm.release_all(1);
    assert!(lm.holds_lock(2, rid(0), &LockMode::Shared));
    assert!(lm.holds_lock(3, rid(0), &LockMode::Shared));
    assert!(!lm.holds_lock(1, rid(0), &LockMode::Shared));
    assert_eq!(lm.lock_count(), 2);
}

#[test]
fn a_transaction_is_active_until_it_ends() {
    let mut t = Transaction::new(4);
    assert!(t.is_active());
    t.log_insert(rid(1));
    t.log_delete(rid(2), vec![9]);
    assert_eq!(t.undo_log.len(), 2);
    assert_eq!(t.undo_log[0].rid, rid(1));
    assert!(matches!(&t.undo_log[1].operation, UndoOp::Delete { data } if data == &[9]));
    t.commit();
    assert_eq!(t.state, TxnState::Committed);
    assert!(!t.is_active());
    let mut t = Transaction::new(5);
    t.abort();
    assert_eq!(t.state, TxnState::Aborted);
    assert!(!t.is_active());
}

#[test]
fn a_transaction_that_ended_keeps_its_state() {
    let mut t = Transaction::new(4);
    t.commit();
    t.abort();
    assert_eq!(t.state, TxnState::Committed);
    let mut t = Transaction::new(5);
    t.abort();
    t.commit();
    assert_eq!(t.state, TxnState::Aborted);
}
