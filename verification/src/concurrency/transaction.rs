//! Transactions: their state, the locks they hold and what to reverse on abort.
use std::collections::HashSet;
use vstd::prelude::*;

verus! {

broadcast use vstd::std_specs::hash::group_hash_axioms;

/// The state of a transaction. An active one becomes committed or aborted, and stays so.
#[derive(Debug, Clone, Copy, PartialEq, Eq, Structural)]
pub enum TxnState {
    Active,
    Committed,
    Aborted,
}

/// Identifies a row: which page and which slot.
#[derive(Debug, Clone, Copy, PartialEq, Eq, Hash, Structural)]
pub struct Rid {
    pub page_id: u32,
    pub slot_id: u16,
}

/// A transaction tracks its id and state, the locks it holds, and the rows it has modified.
#[derive(Debug)]
pub struct Transaction {
    pub txn_id: u32,
    pub state: TxnState,
    /// Rows with a shared lock.
    pub shared_locks: HashSet<Rid>,
    /// Rows with an exclusive lock.
    pub exclusive_locks: HashSet<Rid>,
    /// What to reverse on abort, the oldest first.
    pub undo_log: Vec<UndoEntry>,
}

/// What a row looked like before the transaction touched it.
#[derive(Debug)]
pub struct UndoEntry {
    pub rid: Rid,
    pub operation: UndoOp,
}

#[derive(Debug)]
pub enum UndoOp {
    /// To be reversed by deleting the row.
    Insert,
    /// To be reversed by inserting this data again.
    Delete { data: Vec<u8> },
}

/// The state after a commit.
pub open spec fn after_commit(s: TxnState) -> TxnState {
    if s == TxnState::Active {
        TxnState::Committed
    } else {
        s
    }
}

/// The state after an abort.
pub open spec fn after_abort(s: TxnState) -> TxnState {
    if s == TxnState::Active {
        TxnState::Aborted
    } else {
        s
    }
}

/// A commit or an abort ends a transaction: it is not active any more, and no further commit or abort
/// changes how it ended. The two ends differ.
pub proof fn law_transaction_ends_once(s: TxnState)
    ensures
        after_commit(s) != TxnState::Active,
        after_abort(s) != TxnState::Active,
        after_abort(after_commit(s)) == after_commit(s),
        after_commit(after_commit(s)) == after_commit(s),
        after_commit(after_abort(s)) == after_abort(s),
        after_abort(after_abort(s)) == after_abort(s),
        s == TxnState::Active ==> after_commit(s) == TxnState::Committed && after_abort(s)
            == TxnState::Aborted,
{
}

impl Transaction {
    /// A new transaction is active, holds no locks and has modified nothing.
    pub fn new(txn_id: u32) -> (t: Self)
        ensures
            t.txn_id == txn_id,
            t.state == TxnState::Active,
            t.shared_locks@ == Set::<Rid>::empty(),
            t.exclusive_locks@ == Set::<Rid>::empty(),
            t.undo_log@ == Seq::<UndoEntry>::empty(),
    {
        Self {
            txn_id,
            state: TxnState::Active,
            shared_locks: HashSet::new(),
            exclusive_locks: HashSet::new(),
            undo_log: Vec::new(),
        }
    }

    pub fn is_active(&self) -> (b: bool)
        ensures
            b == (self.state == TxnState::Active),
    {
        self.state == TxnState::Active
    }

    /// Commits the transaction, if it is active.
    pub fn commit(&mut self)
        ensures
            *final(self) == (if old(self).state == TxnState::Active {
                Transaction { state: TxnState::Committed, ..*old(self) }
            } else {
                *old(self)
            }),
            final(self).state == after_commit(old(self).state),
    {
        if self.state == TxnState::Active {
            self.state = TxnState::Committed;
        }
    }

    /// Aborts the transaction, if it is active.
    pub fn abort(&mut self)
        ensures
            *final(self) == (if old(self).state == TxnState::Active {
                Transaction { state: TxnState::Aborted, ..*old(self) }
            } else {
                *old(self)
            }),
            final(self).state == after_abort(old(self).state),
    {
        if self.state == TxnState::Active {
            self.state = TxnState::Aborted;
        }
    }

    /// Notes that a row was inserted.
    pub fn log_insert(&mut self, rid: Rid)
        ensures
            final(self).undo_log@ == old(self).undo_log@.push(
                UndoEntry { rid, operation: UndoOp::Insert },
            ),
            final(self).txn_id == old(self).txn_id,
            final(self).state == old(self).state,
            final(self).shared_locks == old(self).shared_locks,
            final(self).exclusive_locks == old(self).exclusive_locks,
    {
        self.undo_log.push(UndoEntry { rid, operation: UndoOp::Insert });
    }

    /// Notes that a row with this data was deleted.
    pub fn log_delete(&mut self, rid: Rid, data: Vec<u8>)
        ensures
            final(self).undo_log@ == old(self).undo_log@.push(
                UndoEntry { rid, operation: UndoOp::Delete { data } },
            ),
            final(self).txn_id == old(self).txn_id,
            final(self).state == old(self).state,
            final(self).shared_locks == old(self).shared_locks,
            final(self).exclusive_locks == old(self).exclusive_locks,
    {
        self.undo_log.push(UndoEntry { rid, operation: UndoOp::Delete { data } });
    }
}

} // verus!
