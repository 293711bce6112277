//! An executor with transactions that hold locks.
use crate::concurrency::lock_manager::{
    law_release, lock_held, lock_release, locks_ok, LockManager, LockMode, LockView,
};
use crate::concurrency::transaction::{Rid, Transaction};
use crate::engine::executor::{has_room, Executor};
use crate::engine::model::{execute, DbView, RowView};
use crate::engine::rows::{rows_view, Row};
use crate::sql::ast::{Statement, StatementView};
use crate::text::{dec, dec_u64, join3};
use std::collections::HashMap;
use vstd::prelude::*;
use vstd::string::*;

verus! {

broadcast use vstd::std_specs::hash::group_hash_axioms;

/// The mathematical counterpart of `TxnExecutor`.
#[verifier::ext_equal]
pub struct TxnView {
    pub db: DbView,
    pub locks: LockView,
    pub next_txn: u32,
    /// The active transactions.
    pub active: Set<u32>,
}

/// The start of a transaction.
pub open spec fn txn_begun(v: TxnView) -> (TxnView, u32) {
    (
        TxnView {
            next_txn: (v.next_txn + 1) as u32,
            active: v.active.insert(v.next_txn),
            ..v
        },
        v.next_txn,
    )
}

/// The end of a transaction, by commit or abort.
pub open spec fn txn_ended(v: TxnView, txn_id: u32) -> (TxnView, Result<(), Seq<char>>) {
    if v.active.contains(txn_id) {
        (
            TxnView {
                locks: lock_release(v.locks, txn_id),
                active: v.active.remove(txn_id),
                ..v
            },
            Ok(()),
        )
    } else {
        (v, Err("txn not found"@))
    }
}

/// A statement in a transaction.
pub open spec fn txn_ran(v: TxnView, txn_id: u32, stmt: StatementView) -> (
    TxnView,
    Result<Seq<RowView>, Seq<char>>,
) {
    if v.active.contains(txn_id) {
        (TxnView { db: execute(v.db, stmt).0, ..v }, execute(v.db, stmt).1)
    } else {
        (v, Err(msg_not_active(txn_id)))
    }
}

pub open spec fn msg_not_active(txn_id: u32) -> Seq<char> {
    "txn "@ + dec(txn_id as nat) + " not active"@
}

/// Wraps an executor with a lock manager.
pub struct TxnExecutor {
    executor: Executor,
    lock_manager: LockManager,
    next_txn_id: u32,
    active_txns: HashMap<u32, Transaction>,
}

impl View for TxnExecutor {
    type V = TxnView;

    closed spec fn view(&self) -> TxnView {
        TxnView {
            db: self.executor@,
            locks: self.lock_manager@,
            next_txn: self.next_txn_id,
            active: self.active_txns@.dom(),
        }
    }
}

impl TxnExecutor {
    pub closed spec fn wf(&self) -> bool {
        self.executor.wf()
    }

    pub fn new(executor: Executor) -> (t: Self)
        requires
            executor.wf(),
        ensures
            t.wf(),
            t@ == (TxnView {
                db: executor@,
                locks: LockView { table: Seq::empty(), waits_for: Seq::empty() },
                next_txn: 1,
                active: Set::empty(),
            }),
    {
        let t = Self {
            executor,
            lock_manager: LockManager::new(),
            next_txn_id: 1,
            active_txns: HashMap::new(),
        };
        assert(t@.active =~= Set::<u32>::empty());
        t
    }

    /// Starts a transaction.
    pub fn begin(&mut self) -> (id: u32)
        requires
            old(self).wf(),
            old(self)@.next_txn < u32::MAX,
        ensures
            final(self).wf(),
            id == old(self)@.next_txn,
            final(self)@ == (TxnView {
                next_txn: (id + 1) as u32,
                active: old(self)@.active.insert(id),
                ..old(self)@
            }),
            (final(self)@, id) == txn_begun(old(self)@),
    {
        let ghost before = self@;
        let id: u32 = self.next_txn_id;
        self.next_txn_id = id + 1;
        self.active_txns.insert(id, Transaction::new(id));
        assert(self@.active =~= before.active.insert(id));
        id
    }

    /// Commits a transaction and releases its locks.
    pub fn commit(&mut self, txn_id: u32) -> (res: Result<(), String>)
        requires
            old(self).wf(),
        ensures
            final(self).wf(),
            match res {
                Ok(_) => old(self)@.active.contains(txn_id) && final(self)@ == (TxnView {
                    locks: lock_release(old(self)@.locks, txn_id),
                    active: old(self)@.active.remove(txn_id),
                    ..old(self)@
                }),
                Err(e) => {
                    &&& !old(self)@.active.contains(txn_id)
                    &&& e@ == "txn not found"@
                    &&& final(self)@ == old(self)@
                },
            },            final(self)@ == txn_ended(old(self)@, txn_id).0,
            match (res, txn_ended(old(self)@, txn_id).1) {
                (Ok(_), Ok(_)) => true,
                (Err(e), Err(t)) => e@ == t,
                _ => false,
            },
    {
        self.finish(txn_id)
    }

    /// Aborts a transaction and releases its locks. Each of its statements was committed by the
    /// executor when it ran, so the rows stay as the statements left them.
    pub fn abort(&mut self, txn_id: u32) -> (res: Result<(), String>)
        requires
            old(self).wf(),
        ensures
            final(self).wf(),
            match res {
                Ok(_) => old(self)@.active.contains(txn_id) && final(self)@ == (TxnView {
                    locks: lock_release(old(self)@.locks, txn_id),
                    active: old(self)@.active.remove(txn_id),
                    ..old(self)@
                }),
                Err(e) => {
                    &&& !old(self)@.active.contains(txn_id)
                    &&& e@ == "txn not found"@
                    &&& final(self)@ == old(self)@
                },
            },            final(self)@ == txn_ended(old(self)@, txn_id).0,
            match (res, txn_ended(old(self)@, txn_id).1) {
                (Ok(_), Ok(_)) => true,
                (Err(e), Err(t)) => e@ == t,
                _ => false,
            },
    {
        self.finish(txn_id)
    }

    fn finish(&mut self, txn_id: u32) -> (res: Result<(), String>)
        requires
            old(self).wf(),
        ensures
            final(self).wf(),
            match res {
                Ok(_) => old(self)@.active.contains(txn_id) && final(self)@ == (TxnView {
                    locks: lock_release(old(self)@.locks, txn_id),
                    active: old(self)@.active.remove(txn_id),
                    ..old(self)@
                }),
                Err(e) => {
                    &&& !old(self)@.active.contains(txn_id)
                    &&& e@ == "txn not found"@
                    &&& final(self)@ == old(self)@
                },
            },            final(self)@ == txn_ended(old(self)@, txn_id).0,
            match (res, txn_ended(old(self)@, txn_id).1) {
                (Ok(_), Ok(_)) => true,
                (Err(e), Err(t)) => e@ == t,
                _ => false,
            },
    {
        let ghost before = self@;
        match self.active_txns.remove(&txn_id) {
            None => {
                assert(self@.active =~= before.active);
                Err("txn not found".to_owned())
            },
            Some(_) => {
                self.lock_manager.release_all(txn_id);
                assert(self@.active =~= before.active.remove(txn_id));
                Ok(())
            },
        }
    }

    /// Executes a statement in an active transaction.
    pub fn run_in_txn(&mut self, txn_id: u32, stmt: Statement) -> (res: Result<Vec<Row>, String>)
        requires
            old(self).wf(),
            has_room(old(self)@.db),
        ensures
            final(self).wf(),
            if old(self)@.active.contains(txn_id) {
                &&& final(self)@ == (TxnView { db: execute(old(self)@.db, stmt@).0, ..old(self)@ })
                &&& match (res, execute(old(self)@.db, stmt@).1) {
                    (Ok(rows), Ok(v)) => rows_view(rows@) == v,
                    (Err(e), Err(t)) => e@ == t,
                    _ => false,
                }
            } else {
                &&& final(self)@ == old(self)@
                &&& res is Err
                &&& (res->Err_0)@ == msg_not_active(txn_id)
            },
            final(self)@ == txn_ran(old(self)@, txn_id, stmt@).0,
            match (res, txn_ran(old(self)@, txn_id, stmt@).1) {
                (Ok(rows), Ok(v)) => rows_view(rows@) == v,
                (Err(e), Err(t)) => e@ == t,
                _ => false,
            },
    {
        if !self.active_txns.contains_key(&txn_id) {
            let d = dec_u64(txn_id as u64);
            return Err(join3("txn ", d.as_str(), " not active"));
        }
        self.executor.execute(stmt)
    }
}

// Laws.

/// Ids of active transactions have been given out.
pub open spec fn ids_given(v: TxnView) -> bool {
    forall|id: u32| #[trigger] v.active.contains(id) ==> id < v.next_txn
}

/// A transaction that starts is active, under an id that no active one has, and the others stay
/// active. It changes no row and no lock.
pub proof fn law_transaction_starts(v: TxnView, other: u32)
    requires
        ids_given(v),
        v.next_txn < u32::MAX,
    ensures
        ({
            let (u, id) = txn_begun(v);
            &&& ids_given(u)
            &&& !v.active.contains(id)
            &&& u.active.contains(id)
            &&& other != id ==> u.active.contains(other) == v.active.contains(other)
            &&& u.db == v.db
            &&& u.locks == v.locks
        }),
{
}

/// A transaction that ends is not active any more and holds no lock; the others stay active and keep
/// their locks, and the rows stay. To end it again, or one that never was, is refused and changes
/// nothing.
pub proof fn law_transaction_ends(v: TxnView, txn_id: u32, other: u32, rid: Rid, mode: LockMode)
    requires
        ids_given(v),
        locks_ok(v.locks),
    ensures
        ({
            let (u, res) = txn_ended(v, txn_id);
            &&& ids_given(u)
            &&& locks_ok(u.locks)
            &&& res is Ok <==> v.active.contains(txn_id)
            &&& res is Err ==> u == v
            &&& !u.active.contains(txn_id)
            &&& other != txn_id ==> u.active.contains(other) == v.active.contains(other)
            &&& res is Ok ==> !lock_held(u.locks, txn_id, rid, mode)
            &&& other != txn_id && lock_held(v.locks, other, rid, mode) ==> lock_held(
                u.locks,
                other,
                rid,
                mode,
            )
            &&& u.db == v.db
            &&& u.next_txn == v.next_txn
            &&& txn_ended(u, txn_id).1 is Err
        }),
{
    law_release(v.locks, txn_id, other, rid, mode);
}

/// A statement runs in an active transaction, as it would outside of one, and is refused in one that
/// is not; it starts and ends none.
pub proof fn law_statement_needs_an_active_transaction(v: TxnView, txn_id: u32, stmt: StatementView)
    ensures
        ({
            let (u, res) = txn_ran(v, txn_id, stmt);
            &&& !v.active.contains(txn_id) ==> u == v && res is Err
            &&& v.active.contains(txn_id) ==> (u.db, res) == execute(v.db, stmt)
            &&& u.active == v.active
            &&& u.locks == v.locks
            &&& u.next_txn == v.next_txn
        }),
{
}

} // verus!
