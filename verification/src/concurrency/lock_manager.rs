//! Row locks in two phases, with a check for deadlocks.
use crate::concurrency::transaction::Rid;
use crate::text::{dec, dec_u64, join3};
use std::collections::VecDeque;
use vstd::prelude::*;
use vstd::string::*;

verus! {

/// Shared, to read, or exclusive, to write.
#[derive(Debug, Clone, Copy, PartialEq, Eq, Structural)]
pub enum LockMode {
    Shared,
    Exclusive,
}

/// A request in the queue of a row.
#[derive(Debug, Clone, Copy)]
pub struct LockRequest {
    pub txn_id: u32,
    pub mode: LockMode,
    pub granted: bool,
}

/// How many granted requests have this mode.
pub open spec fn granted_count(q: Seq<LockRequest>, mode: LockMode) -> nat
    decreases q.len(),
{
    if q.len() == 0 {
        0
    } else {
        granted_count(q.drop_last(), mode) + if q.last().granted && q.last().mode == mode {
            1nat
        } else {
            0
        }
    }
}

/// The transaction holds a lock.
pub open spec fn holds(q: Seq<LockRequest>, txn_id: u32) -> bool {
    exists|i: int| 0 <= i < q.len() && (#[trigger] q[i]).granted && q[i].txn_id == txn_id
}

/// The transaction holds an exclusive lock.
pub open spec fn holds_exclusive(q: Seq<LockRequest>, txn_id: u32) -> bool {
    exists|i: int|
        0 <= i < q.len() && (#[trigger] q[i]).granted && q[i].txn_id == txn_id && q[i].mode
            == LockMode::Exclusive
}

/// Another transaction holds a lock.
pub open spec fn others_hold(q: Seq<LockRequest>, txn_id: u32) -> bool {
    exists|i: int| 0 <= i < q.len() && (#[trigger] q[i]).granted && q[i].txn_id != txn_id
}

/// A new request can be granted right now: the transaction holds an exclusive lock already; or, for
/// a shared lock, nobody holds an exclusive one; or, for an exclusive lock, nobody else holds any.
pub open spec fn grantable(q: Seq<LockRequest>, txn_id: u32, mode: LockMode) -> bool {
    holds_exclusive(q, txn_id) || match mode {
        LockMode::Shared => granted_count(q, LockMode::Exclusive) == 0,
        LockMode::Exclusive => !others_hold(q, txn_id),
    }
}

/// All requests of the transaction become exclusive.
pub open spec fn upgraded(q: Seq<LockRequest>, txn_id: u32) -> Seq<LockRequest> {
    Seq::new(
        q.len(),
        |i: int|
            if q[i].txn_id == txn_id {
                LockRequest { mode: LockMode::Exclusive, ..q[i] }
            } else {
                q[i]
            },
    )
}

/// The queue without the requests of the transaction.
pub open spec fn without_txn(q: Seq<LockRequest>, txn_id: u32) -> Seq<LockRequest> {
    q.filter(|r: LockRequest| r.txn_id != txn_id)
}

/// The queue without the requests of the transaction that wait.
pub open spec fn without_waiting(q: Seq<LockRequest>, txn_id: u32) -> Seq<LockRequest> {
    q.filter(|r: LockRequest| r.txn_id != txn_id || r.granted)
}

/// The transactions other than this one that hold a lock.
pub open spec fn blockers(q: Seq<LockRequest>, txn_id: u32) -> Seq<u32> {
    q.filter(|r: LockRequest| r.granted && r.txn_id != txn_id).map_values(
        |r: LockRequest| r.txn_id,
    )
}

/// A waiting request can be granted: for a shared lock nobody holds an exclusive one, for an
/// exclusive lock nobody holds any.
pub open spec fn wakes(q: Seq<LockRequest>, mode: LockMode) -> bool {
    granted_count(q, LockMode::Exclusive) == 0 && (mode == LockMode::Shared || granted_count(
        q,
        LockMode::Shared,
    ) == 0)
}

/// The queue after each of the first `n` requests, one after the other, was granted if it could.
pub open spec fn woken(q: Seq<LockRequest>, n: nat) -> Seq<LockRequest>
    decreases n,
{
    if n == 0 {
        q
    } else {
        let p = woken(q, (n - 1) as nat);
        let r = p[n - 1];
        if !r.granted && wakes(p, r.mode) {
            p.update(n - 1, LockRequest { granted: true, ..r })
        } else {
            p
        }
    }
}

/// The state of a queue after a transaction released its locks.
pub open spec fn released(q: Seq<LockRequest>, txn_id: u32) -> Seq<LockRequest> {
    let rest = without_txn(q, txn_id);
    woken(rest, rest.len())
}

// The waits-for graph: for each waiting transaction those that it waits for.

/// Transaction `a` waits for transaction `b`.
pub open spec fn waits(w: Seq<(u32, Seq<u32>)>, a: u32, b: u32) -> bool {
    exists|i: int| 0 <= i < w.len() && (#[trigger] w[i]).0 == a && w[i].1.contains(b)
}

/// Each transaction of `path` waits for the next.
pub open spec fn wait_path(w: Seq<(u32, Seq<u32>)>, path: Seq<u32>) -> bool {
    forall|k: int, l: int|
        0 <= k && l == k + 1 && l < path.len() ==> waits(w, #[trigger] path[k], #[trigger] path[l])
}

/// Transaction `a` waits for transaction `b`, directly or through others.
pub open spec fn reaches(w: Seq<(u32, Seq<u32>)>, a: u32, b: u32) -> bool {
    exists|path: Seq<u32>|
        #![trigger wait_path(w, path)]
        path.len() >= 2 && path[0] == a && path.last() == b && wait_path(w, path)
}

/// The transaction waits for itself.
pub open spec fn in_cycle(w: Seq<(u32, Seq<u32>)>, a: u32) -> bool {
    reaches(w, a, a)
}

/// No transaction waits for itself.
pub open spec fn acyclic(w: Seq<(u32, Seq<u32>)>) -> bool {
    forall|a: u32| !in_cycle(w, a)
}

/// What a transaction other than this one waits for.
pub open spec fn other_waiter(txn_id: u32) -> spec_fn((u32, Seq<u32>)) -> bool {
    |e: (u32, Seq<u32>)| e.0 != txn_id
}

/// A transaction other than this one.
pub open spec fn other_txn(txn_id: u32) -> spec_fn(u32) -> bool {
    |t: u32| t != txn_id
}

/// The graph without what the transaction waits for.
pub open spec fn without_waiter(w: Seq<(u32, Seq<u32>)>, txn_id: u32) -> Seq<(u32, Seq<u32>)> {
    w.filter(other_waiter(txn_id))
}

/// The graph after the transaction came to wait for `list`.
pub open spec fn with_waiter(w: Seq<(u32, Seq<u32>)>, txn_id: u32, list: Seq<u32>) -> Seq<
    (u32, Seq<u32>),
> {
    without_waiter(w, txn_id).push((txn_id, list))
}

/// The graph after nobody waits for the transaction any more.
pub open spec fn without_target(w: Seq<(u32, Seq<u32>)>, txn_id: u32) -> Seq<(u32, Seq<u32>)> {
    w.map_values(|e: (u32, Seq<u32>)| (e.0, e.1.filter(other_txn(txn_id))))
}

// The lock manager.

/// The mathematical counterpart of `LockManager`.
#[verifier::ext_equal]
pub struct LockView {
    /// The queue of each row that was ever asked for.
    pub table: Seq<(Rid, Seq<LockRequest>)>,
    pub waits_for: Seq<(u32, Seq<u32>)>,
}

/// The first position from `i` on of the queue of a row.
pub open spec fn row_at(t: Seq<(Rid, Seq<LockRequest>)>, rid: Rid, i: int) -> Option<int>
    decreases t.len() - i,
{
    if i < 0 || i >= t.len() {
        None
    } else if t[i].0 == rid {
        Some(i)
    } else {
        row_at(t, rid, i + 1)
    }
}

/// The queue of a row, empty if the row was never asked for.
pub open spec fn queue_of(t: Seq<(Rid, Seq<LockRequest>)>, rid: Rid) -> Seq<LockRequest> {
    match row_at(t, rid, 0) {
        Some(i) => t[i].1,
        None => Seq::empty(),
    }
}

/// The table after the queue of a row became `q`.
pub open spec fn queue_put(t: Seq<(Rid, Seq<LockRequest>)>, rid: Rid, q: Seq<LockRequest>) -> Seq<
    (Rid, Seq<LockRequest>),
> {
    match row_at(t, rid, 0) {
        Some(i) => t.update(i, (rid, q)),
        None => t.push((rid, q)),
    }
}

pub open spec fn msg_deadlock(txn_id: u32) -> Seq<char> {
    "deadlock detected: txn "@ + dec(txn_id as nat) + " is in a wait cycle"@
}

/// What asking for a lock does and returns.
pub open spec fn lock_acquire(v: LockView, txn_id: u32, rid: Rid, mode: LockMode) -> (
    LockView,
    Result<bool, Seq<char>>,
) {
    let q = queue_of(v.table, rid);
    let kept = LockView { table: queue_put(v.table, rid, q), ..v };
    if holds(q, txn_id) && (mode == LockMode::Shared || holds_exclusive(q, txn_id)) {
        (kept, Ok(true))
    } else if holds(q, txn_id) && grantable(q, txn_id, LockMode::Exclusive) {
        (LockView { table: queue_put(v.table, rid, upgraded(q, txn_id)), ..v }, Ok(true))
    } else {
        let granted = grantable(q, txn_id, mode);
        let longer = q.push(LockRequest { txn_id, mode, granted });
        let queued = LockView { table: queue_put(v.table, rid, longer), ..v };
        if granted {
            (queued, Ok(true))
        } else {
            let graph = with_waiter(v.waits_for, txn_id, blockers(longer, txn_id));
            if in_cycle(graph, txn_id) {
                (
                    LockView {
                        table: queue_put(v.table, rid, without_waiting(longer, txn_id)),
                        waits_for: without_waiter(v.waits_for, txn_id),
                    },
                    Err(msg_deadlock(txn_id)),
                )
            } else {
                (LockView { waits_for: graph, ..queued }, Ok(false))
            }
        }
    }
}

/// What releasing all locks of a transaction does.
pub open spec fn lock_release(v: LockView, txn_id: u32) -> LockView {
    LockView {
        table: Seq::new(v.table.len(), |i: int| (v.table[i].0, released(v.table[i].1, txn_id))),
        waits_for: without_target(without_waiter(v.waits_for, txn_id), txn_id),
    }
}

/// The transaction holds a lock on the row that covers `mode`.
pub open spec fn lock_held(v: LockView, txn_id: u32, rid: Rid, mode: LockMode) -> bool {
    let q = queue_of(v.table, rid);
    exists|i: int|
        0 <= i < q.len() && (#[trigger] q[i]).granted && q[i].txn_id == txn_id && (q[i].mode == mode
            || q[i].mode == LockMode::Exclusive)
}

/// How many requests on the first `n` rows are granted.
pub open spec fn granted_upto(t: Seq<(Rid, Seq<LockRequest>)>, n: nat) -> nat
    decreases n,
{
    if n == 0 {
        0
    } else {
        granted_upto(t, (n - 1) as nat) + granted_count(t[n - 1].1, LockMode::Shared)
            + granted_count(t[n - 1].1, LockMode::Exclusive)
    }
}

proof fn lemma_filter_push<A>(s: Seq<A>, x: A, p: spec_fn(A) -> bool)
    ensures
        s.push(x).filter(p) == if p(x) {
            s.filter(p).push(x)
        } else {
            s.filter(p)
        },
{
    reveal(Seq::filter);
    assert(s.push(x).drop_last() =~= s);
}

/// Filtering one more element.
proof fn lemma_filter_step<A>(s: Seq<A>, i: int, p: spec_fn(A) -> bool)
    requires
        0 <= i < s.len(),
    ensures
        s.take(i + 1).filter(p) == if p(s[i]) {
            s.take(i).filter(p).push(s[i])
        } else {
            s.take(i).filter(p)
        },
{
    assert(s.take(i + 1) =~= s.take(i).push(s[i]));
    lemma_filter_push(s.take(i), s[i], p);
}

proof fn lemma_filter_none<A>(s: Seq<A>, p: spec_fn(A) -> bool)
    ensures
        s.take(0).filter(p) == Seq::<A>::empty(),
{
    reveal(Seq::filter);
    assert(s.take(0).len() == 0);
}

/// The number of granted requests grows by one when one is granted.
proof fn lemma_count_update(q: Seq<LockRequest>, i: int, mode: LockMode)
    requires
        0 <= i < q.len(),
        !q[i].granted,
    ensures
        granted_count(q.update(i, LockRequest { granted: true, ..q[i] }), mode) == granted_count(
            q,
            mode,
        ) + if q[i].mode == mode {
            1nat
        } else {
            0
        },
    decreases q.len(),
{
    let u = q.update(i, LockRequest { granted: true, ..q[i] });
    if i == q.len() - 1 {
        assert(u.drop_last() =~= q.drop_last());
    } else {
        assert(u.drop_last() =~= q.drop_last().update(
            i,
            LockRequest { granted: true, ..q.drop_last()[i] },
        ));
        lemma_count_update(q.drop_last(), i, mode);
    }
}

/// Granting the first requests leaves the others as they were.
pub proof fn lemma_woken_rest(q: Seq<LockRequest>, n: nat)
    requires
        n <= q.len(),
    ensures
        woken(q, n).len() == q.len(),
        forall|k: int| n <= k < q.len() ==> woken(q, n)[k] == #[trigger] q[k],
        forall|k: int|
            0 <= k < q.len() ==> (#[trigger] woken(q, n)[k]).txn_id == q[k].txn_id && woken(
                q,
                n,
            )[k].mode == q[k].mode && (q[k].granted ==> woken(q, n)[k].granted),
    decreases n,
{
    if n > 0 {
        lemma_woken_rest(q, (n - 1) as nat);
        let p = woken(q, (n - 1) as nat);
        assert forall|k: int| n <= k < q.len() implies woken(q, n)[k] == #[trigger] q[k] by {
            assert(p[k] == q[k]);
        }
        assert forall|k: int| 0 <= k < q.len() implies (#[trigger] woken(q, n)[k]).txn_id
            == q[k].txn_id && woken(q, n)[k].mode == q[k].mode && (q[k].granted ==> woken(
            q,
            n,
        )[k].granted) by {
            assert(p[k].txn_id == q[k].txn_id && p[k].mode == q[k].mode);
        }
    }
}

/// The lock state of a row: its requests, the oldest first.
#[derive(Debug)]
pub struct LockQueue {
    pub requests: VecDeque<LockRequest>,
}

impl Default for LockQueue {
    fn default() -> (q: Self)
        ensures
            q.requests@ == Seq::<LockRequest>::empty(),
    {
        LockQueue { requests: VecDeque::new() }
    }
}

impl LockQueue {
    /// How many shared and how many exclusive locks are granted.
    pub fn granted_counts(&self) -> (n: (usize, usize))
        ensures
            n.0 == granted_count(self.requests@, LockMode::Shared),
            n.1 == granted_count(self.requests@, LockMode::Exclusive),
    {
        let ghost q = self.requests@;
        let mut shared: usize = 0;
        let mut exclusive: usize = 0;
        let n: usize = self.requests.len();
        let mut i: usize = 0;
        assert(q.take(0) =~= Seq::empty());
        while i < n
            invariant
                i <= n,
                n == q.len(),
                q == self.requests@,
                shared + exclusive <= i,
                shared == granted_count(q.take(i as int), LockMode::Shared),
                exclusive == granted_count(q.take(i as int), LockMode::Exclusive),
            decreases n - i,
        {
            proof {
                let next = q.take(i + 1);
                assert(next.drop_last() =~= q.take(i as int));
                assert(next.last() == q[i as int]);
            }
            let r: LockRequest = self.requests[i];
            if r.granted {
                match r.mode {
                    LockMode::Shared => {
                        shared = shared + 1;
                    },
                    LockMode::Exclusive => {
                        exclusive = exclusive + 1;
                    },
                }
            }
            i = i + 1;
        }
        assert(q.take(n as int) =~= q);
        (shared, exclusive)
    }

    fn is_held_by(&self, txn_id: u32) -> (b: bool)
        ensures
            b == holds(self.requests@, txn_id),
    {
        let n: usize = self.requests.len();
        let mut i: usize = 0;
        while i < n
            invariant
                i <= n,
                n == self.requests@.len(),
                forall|k: int|
                    0 <= k < i ==> !((#[trigger] self.requests@[k]).granted
                        && self.requests@[k].txn_id == txn_id),
            decreases n - i,
        {
            let r: LockRequest = self.requests[i];
            if r.granted && r.txn_id == txn_id {
                return true;
            }
            i = i + 1;
        }
        false
    }

    fn is_owned_by(&self, txn_id: u32) -> (b: bool)
        ensures
            b == holds_exclusive(self.requests@, txn_id),
    {
        let n: usize = self.requests.len();
        let mut i: usize = 0;
        while i < n
            invariant
                i <= n,
                n == self.requests@.len(),
                forall|k: int|
                    0 <= k < i ==> !((#[trigger] self.requests@[k]).granted
                        && self.requests@[k].txn_id == txn_id && self.requests@[k].mode
                        == LockMode::Exclusive),
            decreases n - i,
        {
            let r: LockRequest = self.requests[i];
            if r.granted && r.txn_id == txn_id && r.mode == LockMode::Exclusive {
                return true;
            }
            i = i + 1;
        }
        false
    }

    fn is_held_by_others(&self, txn_id: u32) -> (b: bool)
        ensures
            b == others_hold(self.requests@, txn_id),
    {
        let n: usize = self.requests.len();
        let mut i: usize = 0;
        while i < n
            invariant
                i <= n,
                n == self.requests@.len(),
                forall|k: int|
                    0 <= k < i ==> !((#[trigger] self.requests@[k]).granted
                        && self.requests@[k].txn_id != txn_id),
            decreases n - i,
        {
            let r: LockRequest = self.requests[i];
            if r.granted && r.txn_id != txn_id {
                return true;
            }
            i = i + 1;
        }
        false
    }

    /// Tells whether a new request could be granted right now.
    pub fn can_grant(&self, txn_id: u32, mode: &LockMode) -> (b: bool)
        ensures
            b == grantable(self.requests@, txn_id, *mode),
    {
        if self.is_owned_by(txn_id) {
            return true;
        }
        match mode {
            LockMode::Shared => self.granted_counts().1 == 0,
            LockMode::Exclusive => !self.is_held_by_others(txn_id),
        }
    }

    /// Makes all requests of the transaction exclusive.
    fn upgrade(&mut self, txn_id: u32)
        ensures
            final(self).requests@ == upgraded(old(self).requests@, txn_id),
    {
        let ghost q = self.requests@;
        let mut out: VecDeque<LockRequest> = VecDeque::new();
        let n: usize = self.requests.len();
        let mut i: usize = 0;
        while i < n
            invariant
                i <= n,
                n == q.len(),
                q == self.requests@,
                out@ == upgraded(q, txn_id).take(i as int),
            decreases n - i,
        {
            let mut r: LockRequest = self.requests[i];
            if r.txn_id == txn_id {
                r.mode = LockMode::Exclusive;
            }
            out.push_back(r);
            i = i + 1;
            assert(out@ =~= upgraded(q, txn_id).take(i as int));
        }
        assert(out@ =~= upgraded(q, txn_id));
        self.requests = out;
    }

    /// Drops the requests of the transaction, or only those that wait.
    fn drop_requests(&mut self, txn_id: u32, only_waiting: bool)
        ensures
            final(self).requests@ == if only_waiting {
                without_waiting(old(self).requests@, txn_id)
            } else {
                without_txn(old(self).requests@, txn_id)
            },
    {
        let ghost q = self.requests@;
        let ghost p1 = |r: LockRequest| r.txn_id != txn_id || r.granted;
        let ghost p2 = |r: LockRequest| r.txn_id != txn_id;
        let mut out: VecDeque<LockRequest> = VecDeque::new();
        let n: usize = self.requests.len();
        let mut i: usize = 0;
        proof {
            lemma_filter_none(q, p1);
            lemma_filter_none(q, p2);
        }
        while i < n
            invariant
                i <= n,
                n == q.len(),
                q == self.requests@,
                p1 == (|r: LockRequest| r.txn_id != txn_id || r.granted),
                p2 == (|r: LockRequest| r.txn_id != txn_id),
                out@ == if only_waiting {
                    q.take(i as int).filter(p1)
                } else {
                    q.take(i as int).filter(p2)
                },
            decreases n - i,
        {
            let r: LockRequest = self.requests[i];
            proof {
                lemma_filter_step(q, i as int, p1);
                lemma_filter_step(q, i as int, p2);
            }
            if r.txn_id != txn_id || (only_waiting && r.granted) {
                out.push_back(r);
            }
            i = i + 1;
        }
        assert(q.take(n as int) =~= q);
        self.requests = out;
    }

    /// The other transactions that hold a lock.
    fn list_blockers(&self, txn_id: u32) -> (list: Vec<u32>)
        ensures
            list@ == blockers(self.requests@, txn_id),
    {
        let ghost q = self.requests@;
        let ghost p = |r: LockRequest| r.granted && r.txn_id != txn_id;
        let ghost f = |r: LockRequest| r.txn_id;
        let mut list: Vec<u32> = Vec::new();
        let n: usize = self.requests.len();
        let mut i: usize = 0;
        proof {
            lemma_filter_none(q, p);
            assert(list@ =~= q.take(0).filter(p).map_values(f));
        }
        while i < n
            invariant
                i <= n,
                n == q.len(),
                q == self.requests@,
                p == (|r: LockRequest| r.granted && r.txn_id != txn_id),
                f == (|r: LockRequest| r.txn_id),
                list@ == q.take(i as int).filter(p).map_values(f),
            decreases n - i,
        {
            let r: LockRequest = self.requests[i];
            proof {
                lemma_filter_step(q, i as int, p);
            }
            let ghost before = list@;
            if r.granted && r.txn_id != txn_id {
                list.push(r.txn_id);
                assert(list@ =~= q.take(i + 1).filter(p).map_values(f));
            }
            i = i + 1;
        }
        assert(q.take(n as int) =~= q);
        list
    }

    /// Grants the waiting requests that can be granted, one after the other.
    fn grant_waiting(&mut self)
        ensures
            final(self).requests@ == woken(old(self).requests@, old(self).requests@.len()),
    {
        let ghost q = self.requests@;
        let (s, x) = self.granted_counts();
        let mut shared: usize = s;
        let mut exclusive: usize = x;
        let mut out: VecDeque<LockRequest> = VecDeque::new();
        let n: usize = self.requests.len();
        let mut i: usize = 0;
        assert(out@ =~= woken(q, 0).take(0));
        while i < n
            invariant
                i <= n,
                n == q.len(),
                q == self.requests@,
                out@ == woken(q, i as nat).take(i as int),
                shared == granted_count(woken(q, i as nat), LockMode::Shared),
                exclusive == granted_count(woken(q, i as nat), LockMode::Exclusive),
            decreases n - i,
        {
            let mut r: LockRequest = self.requests[i];
            let ghost p = woken(q, i as nat);
            let ghost next = woken(q, (i + 1) as nat);
            proof {
                lemma_woken_rest(q, i as nat);
                lemma_woken_rest(q, (i + 1) as nat);
                assert(p[i as int] == q[i as int]);
                if !r.granted {
                    lemma_count_update(p, i as int, LockMode::Shared);
                    lemma_count_update(p, i as int, LockMode::Exclusive);
                }
                lemma_count_bound(next);
            }
            if !r.granted {
                let can = match r.mode {
                    LockMode::Shared => exclusive == 0,
                    LockMode::Exclusive => shared == 0 && exclusive == 0,
                };
                if can {
                    r.granted = true;
                    match r.mode {
                        LockMode::Shared => {
                            shared = shared + 1;
                        },
                        LockMode::Exclusive => {
                            exclusive = exclusive + 1;
                        },
                    }
                }
            }
            out.push_back(r);
            i = i + 1;
            assert(out@ =~= next.take(i as int));
        }
        proof {
            lemma_woken_rest(q, n as nat);
            assert(woken(q, n as nat).take(n as int) =~= woken(q, n as nat));
        }
        self.requests = out;
    }
}

pub open spec fn table_view(s: Seq<(Rid, LockQueue)>) -> Seq<(Rid, Seq<LockRequest>)> {
    Seq::new(s.len(), |i: int| (s[i].0, s[i].1.requests@))
}

pub open spec fn graph_view(s: Seq<(u32, Vec<u32>)>) -> Seq<(u32, Seq<u32>)> {
    Seq::new(s.len(), |i: int| (s[i].0, s[i].1@))
}

/// Decides about all lock requests, in two phases: a transaction acquires locks as it needs them
/// and releases all of them when it commits or aborts. A request that would have to wait for itself
/// is refused.
pub struct LockManager {
    lock_table: Vec<(Rid, LockQueue)>,
    waits_for: Vec<(u32, Vec<u32>)>,
}

impl View for LockManager {
    type V = LockView;

    closed spec fn view(&self) -> LockView {
        LockView {
            table: table_view(self.lock_table@),
            waits_for: graph_view(self.waits_for@),
        }
    }
}

impl LockManager {
    pub fn new() -> (m: Self)
        ensures
            m@ == (LockView { table: Seq::empty(), waits_for: Seq::empty() }),
    {
        let m = Self { lock_table: Vec::new(), waits_for: Vec::new() };
        assert(m@.table =~= Seq::empty());
        assert(m@.waits_for =~= Seq::empty());
        m
    }

    fn find(&self, rid: Rid) -> (res: Option<usize>)
        ensures
            match res {
                Some(i) => i < self.lock_table@.len() && row_at(self@.table, rid, 0) == Some(
                    i as int,
                ),
                None => row_at(self@.table, rid, 0) is None,
            },
    {
        let ghost t = self@.table;
        let n: usize = self.lock_table.len();
        let mut i: usize = 0;
        while i < n
            invariant
                i <= n,
                n == self.lock_table@.len(),
                t == self@.table,
                row_at(t, rid, 0) == row_at(t, rid, i as int),
            decreases n - i,
        {
            assert(t[i as int].0 == self.lock_table@[i as int].0);
            if self.lock_table[i].0 == rid {
                return Some(i);
            }
            i = i + 1;
        }
        None
    }

    /// Asks for a lock. `Ok(true)`: granted. `Ok(false)`: queued, the transaction has to wait. `Err`:
    /// a deadlock, the caller has to abort.
    pub fn acquire(&mut self, txn_id: u32, rid: Rid, mode: LockMode) -> (res: Result<bool, String>)
        ensures
            final(self)@ == lock_acquire(old(self)@, txn_id, rid, mode).0,
            match (res, lock_acquire(old(self)@, txn_id, rid, mode).1) {
                (Ok(b), Ok(c)) => b == c,
                (Err(e), Err(t)) => e@ == t,
                _ => false,
            },
    {
        let ghost before = self@;
        let ghost q = queue_of(before.table, rid);
        let i: usize = match self.find(rid) {
            Some(i) => {
                assert(before.table[i as int].0 == rid) by {
                    lemma_row_at(before.table, rid, 0);
                }
                assert(before.table.update(i as int, (rid, q)) =~= before.table);
                i
            },
            None => {
                self.lock_table.push((rid, LockQueue { requests: VecDeque::new() }));
                assert(self@.table =~= before.table.push((rid, Seq::empty())));
                self.lock_table.len() - 1
            },
        };
        let ghost placed = self@.table;
        assert(placed =~= queue_put(before.table, rid, q));
        assert(self@ =~= (LockView { table: placed, ..before }));
        assert(placed[i as int] == (rid, self.lock_table@[i as int].1.requests@));
        assert forall|r: Seq<LockRequest>| placed.update(i as int, (rid, r)) == #[trigger] queue_put(
            before.table,
            rid,
            r,
        ) by {
            assert(placed.update(i as int, (rid, r)) =~= queue_put(before.table, rid, r));
        }
        if self.lock_table[i].1.is_held_by(txn_id) {
            if mode == LockMode::Shared || self.lock_table[i].1.is_owned_by(txn_id) {
                return Ok(true);
            }
            if self.lock_table[i].1.can_grant(txn_id, &LockMode::Exclusive) {
                self.lock_table[i].1.upgrade(txn_id);
                assert(self@.table =~= placed.update(i as int, (rid, upgraded(q, txn_id))));
                return Ok(true);
            }
        }
        let granted = self.lock_table[i].1.can_grant(txn_id, &mode);
        self.lock_table[i].1.requests.push_back(LockRequest { txn_id, mode, granted });
        let ghost longer = q.push(LockRequest { txn_id, mode, granted });
        assert(self@.table =~= placed.update(i as int, (rid, longer)));
        if granted {
            return Ok(true);
        }
        let list = self.lock_table[i].1.list_blockers(txn_id);
        self.remove_waiter(txn_id);
        let ghost shorter = self@.waits_for;
        let ghost found = list@;
        self.waits_for.push((txn_id, list));
        assert(self@.waits_for =~= shorter.push((txn_id, found)));
        if self.has_cycle(txn_id) {
            self.lock_table[i].1.drop_requests(txn_id, true);
            let ghost graph = self@.waits_for;
            self.remove_waiter(txn_id);
            proof {
                assert(self@.table =~= placed.update(
                    i as int,
                    (rid, without_waiting(longer, txn_id)),
                ));
                lemma_filter_push(shorter, (txn_id, found), other_waiter(txn_id));
                lemma_filter_twice(before.waits_for, other_waiter(txn_id));
            }
            let d = dec_u64(txn_id as u64);
            return Err(join3("deadlock detected: txn ", d.as_str(), " is in a wait cycle"));
        }
        Ok(false)
    }

    /// Forgets what the transaction waits for.
    fn remove_waiter(&mut self, txn_id: u32)
        ensures
            final(self).lock_table == old(self).lock_table,
            final(self)@.waits_for == without_waiter(old(self)@.waits_for, txn_id),
    {
        let ghost w = self@.waits_for;
        let ghost p = other_waiter(txn_id);
        let mut rest: Vec<(u32, Vec<u32>)> = Vec::new();
        let mut k: usize = 0;
        proof {
            lemma_filter_none(w, p);
            assert(graph_view(rest@) =~= Seq::empty());
        }
        let n: usize = self.waits_for.len();
        while k < n
            invariant
                k <= n,
                n == w.len(),
                n == self.waits_for@.len(),
                w == graph_view(self.waits_for@),
                self.lock_table == old(self).lock_table,
                w == old(self)@.waits_for,
                p == other_waiter(txn_id),
                graph_view(rest@) == w.take(k as int).filter(p),
            decreases n - k,
        {
            let ghost before = graph_view(rest@);
            proof {
                lemma_filter_step(w, k as int, p);
            }
            if self.waits_for[k].0 != txn_id {
                let list = copy_list(&self.waits_for[k].1);
                rest.push((self.waits_for[k].0, list));
                assert(graph_view(rest@) =~= before.push(w[k as int]));
            }
            k = k + 1;
        }
        assert(w.take(n as int) =~= w);
        self.waits_for = rest;
    }

    /// Releases all locks of a transaction, and grants the waiting requests that can be granted
    /// after that.
    pub fn release_all(&mut self, txn_id: u32)
        ensures
            final(self)@ == lock_release(old(self)@, txn_id),
    {
        let ghost before = self@;
        let ghost goal = lock_release(before, txn_id).table;
        let n: usize = self.lock_table.len();
        let mut i: usize = 0;
        while i < n
            invariant
                i <= n,
                n == self.lock_table@.len(),
                n == before.table.len(),
                before == old(self)@,
                goal == lock_release(before, txn_id).table,
                self.waits_for == old(self).waits_for,
                forall|k: int| 0 <= k < i ==> #[trigger] self@.table[k] == goal[k],
                forall|k: int| i <= k < n ==> #[trigger] self@.table[k] == before.table[k],
            decreases n - i,
        {
            let ghost now = self@.table;
            assert(now[i as int] == before.table[i as int]);
            assert(self.lock_table@[i as int].1.requests@ == before.table[i as int].1);
            self.lock_table[i].1.drop_requests(txn_id, false);
            self.lock_table[i].1.grant_waiting();
            assert(self@.table =~= now.update(i as int, goal[i as int]));
            i = i + 1;
        }
        assert(self@.table =~= goal);
        self.remove_waiter(txn_id);
        let ghost w = self@.waits_for;
        let mut k: usize = 0;
        let m: usize = self.waits_for.len();
        let ghost last = without_target(w, txn_id);
        while k < m
            invariant
                k <= m,
                m == self.waits_for@.len(),
                m == w.len(),
                last == without_target(w, txn_id),
                self@.table == goal,
                forall|j: int| 0 <= j < k ==> #[trigger] self@.waits_for[j] == last[j],
                forall|j: int| k <= j < m ==> #[trigger] self@.waits_for[j] == w[j],
            decreases m - k,
        {
            let ghost now = self@.waits_for;
            assert(now[k as int] == w[k as int]);
            assert(self.waits_for@[k as int].1@ == w[k as int].1);
            let list = without_txn_id(&self.waits_for[k].1, txn_id);
            self.waits_for[k].1 = list;
            assert(self@.waits_for =~= now.update(k as int, last[k as int]));
            k = k + 1;
        }
        assert(self@.waits_for =~= last);
    }

    /// Pushes all that a transaction waits for, unless that was done before.
    fn push_waits(&self, node: u32, stack: &mut Vec<u32>, done: &mut Vec<bool>)
        requires
            old(done)@.len() == self@.waits_for.len(),
        ensures
            final(done)@.len() == old(done)@.len(),
            old(stack)@.is_prefix_of(final(stack)@),
            forall|k: int|
                0 <= k < old(done)@.len() ==> #[trigger] final(done)@[k] == (old(done)@[k]
                    || self@.waits_for[k].0 == node),
            forall|k: int|
                old(stack)@.len() <= k < final(stack)@.len() ==> waits(
                    self@.waits_for,
                    node,
                    #[trigger] final(stack)@[k],
                ),
            forall|k: int, y: u32|
                0 <= k < old(done)@.len() && !old(done)@[k] && final(done)@[k]
                    && #[trigger] self@.waits_for[k].1.contains(y) ==> final(stack)@.contains(y),
            final(done)@ == old(done)@ ==> final(stack)@ == old(stack)@,
    {
        let ghost w = self@.waits_for;
        let n: usize = self.waits_for.len();
        let mut k: usize = 0;
        while k < n
            invariant
                k <= n,
                n == w.len(),
                n == self.waits_for@.len(),
                w == graph_view(self.waits_for@),
                w == self@.waits_for,
                done@.len() == n,
                old(done)@.len() == n,
                old(stack)@.is_prefix_of(stack@),
                forall|j: int|
                    0 <= j < k ==> #[trigger] done@[j] == (old(done)@[j] || w[j].0 == node),
                forall|j: int| k <= j < n ==> #[trigger] done@[j] == old(done)@[j],
                forall|j: int|
                    old(stack)@.len() <= j < stack@.len() ==> waits(w, node, #[trigger] stack@[j]),
                forall|j: int, y: u32|
                    0 <= j < k && !old(done)@[j] && done@[j] && #[trigger] w[j].1.contains(y)
                        ==> stack@.contains(y),
                stack@ == old(stack)@ || exists|j: int| 0 <= j < k && done@[j] != old(done)@[j],
            decreases n - k,
        {
            assert(w[k as int].0 == self.waits_for@[k as int].0);
            assert(w[k as int].1 == self.waits_for@[k as int].1@);
            if self.waits_for[k].0 == node && !done[k] {
                let ghost base = stack@;
                let list: &Vec<u32> = &self.waits_for[k].1;
                let mut j: usize = 0;
                while j < list.len()
                    invariant
                        j <= list@.len(),
                        k < w.len(),
                        list@ == w[k as int].1,
                        w[k as int].0 == node,
                        stack@ == base + list@.take(j as int),
                    decreases list@.len() - j,
                {
                    stack.push(list[j]);
                    j = j + 1;
                    assert(stack@ =~= base + list@.take(j as int));
                }
                done.set(k, true);
                proof {
                    assert(list@.take(j as int) =~= list@);
                    assert forall|i: int| old(stack)@.len() <= i < stack@.len() implies waits(
                        w,
                        node,
                        #[trigger] stack@[i],
                    ) by {
                        if i < base.len() {
                            assert(stack@[i] == base[i]);
                        } else {
                            assert(list@[i - base.len()] == stack@[i]);
                            assert(w[k as int].1.contains(stack@[i]));
                        }
                    }
                    assert forall|i: int, y: u32|
                        0 <= i < k + 1 && !old(done)@[i] && done@[i]
                            && #[trigger] w[i].1.contains(y) implies stack@.contains(y) by {
                        if i == k {
                            let x = choose|x: int| 0 <= x < list@.len() && list@[x] == y;
                            assert(stack@[base.len() + x] == y);
                        } else {
                            let x = choose|x: int| 0 <= x < base.len() && base[x] == y;
                            assert(stack@[x] == y);
                        }
                    }
                    assert(done@[k as int] != old(done)@[k as int]);
                }
            }
            k = k + 1;
        }
    }

    /// Tells whether the transaction waits for itself: goes through all that it waits for, directly
    /// or through others.
    fn has_cycle(&self, start: u32) -> (b: bool)
        ensures
            b == in_cycle(self@.waits_for, start),
    {
        let ghost w = self@.waits_for;
        let n: usize = self.waits_for.len();
        let mut done: Vec<bool> = Vec::new();
        let mut j: usize = 0;
        while j < n
            invariant
                j <= n,
                done@.len() == j,
                forall|k: int| 0 <= k < j ==> !done@[k],
            decreases n - j,
        {
            done.push(false);
            j = j + 1;
        }
        let mut stack: Vec<u32> = Vec::new();
        self.push_waits(start, &mut stack, &mut done);
        // Everything that was ever pushed.
        let ghost mut seen: Set<u32> = stack@.to_set();
        proof {
            assert forall|x: u32| #[trigger] seen.contains(x) implies reaches(w, start, x) by {
                let k = choose|k: int| 0 <= k < stack@.len() && stack@[k] == x;
                lemma_reach_one(w, start, x);
            }
        }
        loop
            invariant
                n == w.len(),
                w == self@.waits_for,
                done@.len() == n,
                forall|x: u32| #[trigger] seen.contains(x) ==> reaches(w, start, x),
                forall|k: int| 0 <= k < stack@.len() ==> seen.contains(#[trigger] stack@[k]),
                forall|x: u32| #[trigger]
                    seen.contains(x) ==> stack@.contains(x) || (x != start && settled(w, done@, x)),
                forall|k: int, y: u32|
                    0 <= k < n && done@[k] && #[trigger] w[k].1.contains(y) ==> seen.contains(y),
                settled(w, done@, start),
            decreases pending(done@), stack@.len(),
        {
            let ghost full = stack@;
            let ghost marks = done@;
            match stack.pop() {
                None => {
                    proof {
                        assert forall|path: Seq<u32>|
                            #![trigger wait_path(w, path)]
                            path.len() >= 2 && path[0] == start && path.last() == start
                                && wait_path(w, path) implies false by {
                            lemma_all_seen(w, done@, seen, start, path, path.len() - 1);
                            assert(seen.contains(start));
                        }
                    }
                    return false;
                },
                Some(node) => {
                    assert(node == full[full.len() - 1]);
                    assert(seen.contains(node));
                    if node == start {
                        return true;
                    }
                    let ghost rest = stack@;
                    self.push_waits(node, &mut stack, &mut done);
                    proof {
                        let more = stack@.to_set();
                        assert forall|x: u32| #[trigger]
                            seen.union(more).contains(x) implies reaches(w, start, x) by {
                            if !seen.contains(x) {
                                let k = choose|k: int| 0 <= k < stack@.len() && stack@[k] == x;
                                if k < rest.len() {
                                    assert(rest[k] == full[k]);
                                    assert(seen.contains(full[k]));
                                } else {
                                    assert(waits(w, node, stack@[k]));
                                    lemma_reach_step(w, start, node, x);
                                }
                            }
                        }
                        assert forall|x: u32| #[trigger]
                            seen.union(more).contains(x) implies stack@.contains(x) || (x != start
                            && settled(w, done@, x)) by {
                            if !more.contains(x) && !stack@.contains(x) {
                                assert(seen.contains(x));
                                if full.contains(x) {
                                    let k = choose|k: int| 0 <= k < full.len() && full[k] == x;
                                    if k < full.len() - 1 {
                                        assert(rest[k] == x);
                                        assert(stack@[k] == x);
                                    }
                                    assert(x == node);
                                    assert(settled(w, done@, node));
                                } else {
                                    assert(settled(w, marks, x));
                                    assert(settled(w, done@, x));
                                }
                            }
                        }
                        lemma_pending(marks, done@);
                        assert forall|k: int, y: u32|
                            0 <= k < n && done@[k]
                                && #[trigger] w[k].1.contains(y) implies seen.union(
                            more,
                        ).contains(y) by {
                            if !marks[k] {
                                assert(stack@.contains(y));
                            }
                        }
                        seen = seen.union(more);
                    }
                },
            }
        }
    }

    /// Tells whether a transaction holds a lock on a row. An exclusive lock counts as a shared one
    /// too.
    pub fn holds_lock(&self, txn_id: u32, rid: Rid, mode: &LockMode) -> (b: bool)
        ensures
            b == lock_held(self@, txn_id, rid, *mode),
    {
        match self.find(rid) {
            None => false,
            Some(i) => {
                let ghost q = queue_of(self@.table, rid);
                let requests = &self.lock_table[i].1.requests;
                assert(q == requests@);
                let n: usize = requests.len();
                let mut k: usize = 0;
                while k < n
                    invariant
                        k <= n,
                        n == requests@.len(),
                        q == requests@,
                        q == queue_of(self@.table, rid),
                        forall|j: int|
                            0 <= j < k ==> !((#[trigger] q[j]).granted && q[j].txn_id == txn_id && (
                            q[j].mode == *mode || q[j].mode == LockMode::Exclusive)),
                    decreases n - k,
                {
                    let r: LockRequest = requests[k];
                    if r.granted && r.txn_id == txn_id && (r.mode == *mode || r.mode
                        == LockMode::Exclusive) {
                        assert(q[k as int] == r);
                        return true;
                    }
                    k = k + 1;
                }
                false
            },
        }
    }

    /// How many locks are granted.
    pub fn lock_count(&self) -> (n: usize)
        requires
            granted_upto(self@.table, self@.table.len()) <= usize::MAX,
        ensures
            n == granted_upto(self@.table, self@.table.len()),
    {
        let ghost t = self@.table;
        let m: usize = self.lock_table.len();
        let mut total: usize = 0;
        let mut i: usize = 0;
        while i < m
            invariant
                i <= m,
                m == self.lock_table@.len(),
                t == self@.table,
                granted_upto(t, m as nat) <= usize::MAX,
                total == granted_upto(t, i as nat),
            decreases m - i,
        {
            proof {
                lemma_granted_grows(t, (i + 1) as nat, m as nat);
            }
            assert(t[i as int].1 == self.lock_table@[i as int].1.requests@);
            let (shared, exclusive) = self.lock_table[i].1.granted_counts();
            total = total + shared + exclusive;
            i = i + 1;
        }
        total
    }
}

fn copy_list(list: &Vec<u32>) -> (copy: Vec<u32>)
    ensures
        copy@ == list@,
{
    let mut copy: Vec<u32> = Vec::new();
    let mut i: usize = 0;
    while i < list.len()
        invariant
            i <= list@.len(),
            copy@ == list@.take(i as int),
        decreases list@.len() - i,
    {
        copy.push(list[i]);
        i = i + 1;
        assert(copy@ =~= list@.take(i as int));
    }
    assert(copy@ =~= list@);
    copy
}

fn without_txn_id(list: &Vec<u32>, txn_id: u32) -> (rest: Vec<u32>)
    ensures
        rest@ == list@.filter(other_txn(txn_id)),
{
    let ghost p = other_txn(txn_id);
    let mut rest: Vec<u32> = Vec::new();
    let mut i: usize = 0;
    proof {
        lemma_filter_none(list@, p);
    }
    while i < list.len()
        invariant
            i <= list@.len(),
            p == other_txn(txn_id),
            rest@ == list@.take(i as int).filter(p),
        decreases list@.len() - i,
    {
        proof {
            lemma_filter_step(list@, i as int, p);
        }
        if list[i] != txn_id {
            rest.push(list[i]);
        }
        i = i + 1;
    }
    assert(list@.take(i as int) =~= list@);
    rest
}

/// Everything that the transaction waits for has been pushed.
spec fn settled(w: Seq<(u32, Seq<u32>)>, done: Seq<bool>, x: u32) -> bool {
    forall|k: int| 0 <= k < w.len() && (#[trigger] w[k]).0 == x ==> done[k]
}

/// How many entries are not done.
spec fn pending(done: Seq<bool>) -> nat
    decreases done.len(),
{
    if done.len() == 0 {
        0
    } else {
        pending(done.drop_last()) + if done.last() {
            0nat
        } else {
            1
        }
    }
}

proof fn lemma_pending(a: Seq<bool>, b: Seq<bool>)
    requires
        a.len() == b.len(),
        forall|k: int| 0 <= k < a.len() && a[k] ==> #[trigger] b[k],
    ensures
        pending(b) <= pending(a),
        a != b ==> pending(b) < pending(a),
    decreases a.len(),
{
    if a.len() > 0 {
        assert forall|k: int| 0 <= k < a.len() - 1 && a.drop_last()[k] implies #[trigger] b.drop_last()[k] by {
            assert(b[k]);
        }
        lemma_pending(a.drop_last(), b.drop_last());
        if a != b && a.drop_last() == b.drop_last() {
            assert(a.last() != b.last()) by {
                if a.last() == b.last() {
                    assert(a =~= a.drop_last().push(a.last()));
                    assert(b =~= b.drop_last().push(b.last()));
                }
            }
            assert(a.last() ==> b[a.len() - 1]);
        }
    } else {
        assert(a =~= b);
    }
}

proof fn lemma_reach_one(w: Seq<(u32, Seq<u32>)>, a: u32, b: u32)
    requires
        waits(w, a, b),
    ensures
        reaches(w, a, b),
{
    assert(wait_path(w, seq![a, b]));
}

proof fn lemma_reach_step(w: Seq<(u32, Seq<u32>)>, a: u32, b: u32, c: u32)
    requires
        reaches(w, a, b),
        waits(w, b, c),
    ensures
        reaches(w, a, c),
{
    let path = choose|path: Seq<u32>|
        #![trigger wait_path(w, path)]
        path.len() >= 2 && path[0] == a && path.last() == b && wait_path(w, path);
    let longer = path.push(c);
    assert(wait_path(w, longer)) by {
        assert forall|k: int, l: int| 0 <= k && l == k + 1 && l < longer.len() implies waits(
            w,
            #[trigger] longer[k],
            #[trigger] longer[l],
        ) by {
            if l < path.len() {
                assert(waits(w, path[k], path[l]));
            }
        }
    }
}

proof fn lemma_all_seen(
    w: Seq<(u32, Seq<u32>)>,
    done: Seq<bool>,
    seen: Set<u32>,
    start: u32,
    path: Seq<u32>,
    k: int,
)
    requires
        wait_path(w, path),
        1 <= k < path.len(),
        path[0] == start,
        done.len() == w.len(),
        settled(w, done, start),
        forall|x: u32| #[trigger] seen.contains(x) ==> x != start && settled(w, done, x),
        forall|k: int, y: u32|
            0 <= k < w.len() && done[k] && #[trigger] w[k].1.contains(y) ==> seen.contains(y),
    ensures
        seen.contains(path[k]),
    decreases k,
{
    if k > 1 {
        lemma_all_seen(w, done, seen, start, path, k - 1);
    }
    let a = path[k - 1];
    assert(waits(w, a, path[k]));
    let i = choose|i: int| 0 <= i < w.len() && (#[trigger] w[i]).0 == a && w[i].1.contains(path[k]);
    assert(settled(w, done, a));
    assert(done[i]);
}

proof fn lemma_granted_grows(t: Seq<(Rid, Seq<LockRequest>)>, n: nat, m: nat)
    requires
        n <= m,
    ensures
        granted_upto(t, n) <= granted_upto(t, m),
    decreases m,
{
    if n < m {
        lemma_granted_grows(t, n, (m - 1) as nat);
    }
}

pub proof fn lemma_row_at(t: Seq<(Rid, Seq<LockRequest>)>, rid: Rid, i: int)
    requires
        0 <= i,
    ensures
        match row_at(t, rid, i) {
            Some(k) => i <= k < t.len() && t[k].0 == rid,
            None => forall|k: int| i <= k < t.len() ==> (#[trigger] t[k]).0 != rid,
        },
    decreases t.len() - i,
{
    if i < t.len() && t[i].0 != rid {
        lemma_row_at(t, rid, i + 1);
    }
}

/// Filtering twice is filtering once.
proof fn lemma_filter_twice<A>(s: Seq<A>, p: spec_fn(A) -> bool)
    ensures
        s.filter(p).filter(p) == s.filter(p),
    decreases s.len(),
{
    reveal(Seq::filter);
    if s.len() > 0 {
        lemma_filter_twice(s.drop_last(), p);
        let rest = s.drop_last().filter(p);
        if p(s.last()) {
            lemma_filter_push(rest, s.last(), p);
        }
    }
}

/// No more requests are granted than there are.
proof fn lemma_count_bound(q: Seq<LockRequest>)
    ensures
        granted_count(q, LockMode::Shared) + granted_count(q, LockMode::Exclusive) <= q.len(),
    decreases q.len(),
{
    if q.len() > 0 {
        lemma_count_bound(q.drop_last());
    }
}

/// What a filter keeps.
pub proof fn lemma_filter_members<A>(s: Seq<A>, p: spec_fn(A) -> bool)
    ensures
        forall|x: A| #[trigger] s.filter(p).contains(x) <==> s.contains(x) && p(x),
    decreases s.len(),
{
    reveal(Seq::filter);
    if s.len() > 0 {
        let rest = s.drop_last();
        lemma_filter_members(rest, p);
        assert forall|x: A| #[trigger] s.filter(p).contains(x) <==> s.contains(x) && p(x) by {
            assert(rest.filter(p).contains(x) <==> rest.contains(x) && p(x));
            if s.contains(x) {
                let i = choose|i: int| 0 <= i < s.len() && s[i] == x;
                if i < s.len() - 1 {
                    assert(rest[i] == x);
                }
            }
            if rest.contains(x) {
                let i = choose|i: int| 0 <= i < rest.len() && rest[i] == x;
                assert(s[i] == x);
            }
            if s.last() == x {
                assert(s[s.len() - 1] == x);
            }
            let f = s.filter(p);
            let g = rest.filter(p);
            if p(s.last()) {
                assert(f == g.push(s.last()));
                if f.contains(x) {
                    let i = choose|i: int| 0 <= i < f.len() && f[i] == x;
                    if i < g.len() {
                        assert(g[i] == x);
                    }
                }
                if g.contains(x) {
                    let i = choose|i: int| 0 <= i < g.len() && g[i] == x;
                    assert(f[i] == x);
                }
                assert(f[g.len() as int] == s.last());
            }
        }
    }
}

// Laws.

/// Whoever holds an exclusive lock is the only one that holds a lock.
pub open spec fn exclusion(q: Seq<LockRequest>) -> bool {
    forall|i: int, j: int|
        0 <= i < q.len() && 0 <= j < q.len() && (#[trigger] q[i]).granted && (
        #[trigger] q[j]).granted && q[i].mode == LockMode::Exclusive ==> q[i].txn_id == q[j].txn_id
}

/// What holds of a lock manager at all times: exclusive locks exclude the locks of others, and no
/// transaction waits for itself.
pub open spec fn locks_ok(v: LockView) -> bool {
    &&& forall|k: int| 0 <= k < v.table.len() ==> exclusion((#[trigger] v.table[k]).1)
    &&& acyclic(v.waits_for)
}

/// No exclusive lock is counted where none is granted.
pub proof fn lemma_count_zero(q: Seq<LockRequest>, mode: LockMode)
    ensures
        granted_count(q, mode) == 0 <==> forall|i: int|
            0 <= i < q.len() ==> !((#[trigger] q[i]).granted && q[i].mode == mode),
    decreases q.len(),
{
    if q.len() > 0 {
        let rest = q.drop_last();
        lemma_count_zero(rest, mode);
        if granted_count(q, mode) == 0 {
            assert forall|i: int| 0 <= i < q.len() implies !((#[trigger] q[i]).granted && q[i].mode
                == mode) by {
                if i < q.len() - 1 {
                    assert(rest[i] == q[i]);
                }
            }
        } else if forall|i: int| 0 <= i < q.len() ==> !((#[trigger] q[i]).granted && q[i].mode
            == mode) {
            assert forall|i: int| 0 <= i < rest.len() implies !((#[trigger] rest[i]).granted
                && rest[i].mode == mode) by {
                assert(rest[i] == q[i]);
            }
            assert(!(q[q.len() - 1].granted && q[q.len() - 1].mode == mode));
        }
    }
}

/// A queue some of whose requests were dropped keeps exclusion.
proof fn lemma_filter_exclusion(q: Seq<LockRequest>, p: spec_fn(LockRequest) -> bool)
    requires
        exclusion(q),
    ensures
        exclusion(q.filter(p)),
{
    lemma_filter_members(q, p);
    let f = q.filter(p);
    assert forall|i: int, j: int|
        0 <= i < f.len() && 0 <= j < f.len() && (#[trigger] f[i]).granted && (
        #[trigger] f[j]).granted && f[i].mode == LockMode::Exclusive implies f[i].txn_id
        == f[j].txn_id by {
        assert(f.contains(f[i]) && f.contains(f[j]));
        let a = choose|a: int| 0 <= a < q.len() && q[a] == f[i];
        let b = choose|b: int| 0 <= b < q.len() && q[b] == f[j];
        assert(q[a].granted && q[b].granted);
    }
}

/// Granting waiting requests keeps exclusion.
proof fn lemma_woken_exclusion(q: Seq<LockRequest>, n: nat)
    requires
        exclusion(q),
        n <= q.len(),
    ensures
        exclusion(woken(q, n)),
    decreases n,
{
    if n > 0 {
        lemma_woken_exclusion(q, (n - 1) as nat);
        lemma_woken_rest(q, (n - 1) as nat);
        let p = woken(q, (n - 1) as nat);
        let r = p[n - 1];
        if !r.granted && wakes(p, r.mode) {
            lemma_count_zero(p, LockMode::Shared);
            lemma_count_zero(p, LockMode::Exclusive);
            let u = woken(q, n);
            assert forall|i: int, j: int|
                0 <= i < u.len() && 0 <= j < u.len() && (#[trigger] u[i]).granted && (
                #[trigger] u[j]).granted && u[i].mode == LockMode::Exclusive implies u[i].txn_id
                == u[j].txn_id by {
                if i != n - 1 {
                    assert(u[i] == p[i]);
                } else if j != n - 1 {
                    assert(u[j] == p[j]);
                    assert(p[j].mode == LockMode::Shared || p[j].mode == LockMode::Exclusive);
                }
            }
        }
    }
}

pub proof fn lemma_queue_put(
    t: Seq<(Rid, Seq<LockRequest>)>,
    rid: Rid,
    q: Seq<LockRequest>,
    other: Rid,
)
    ensures
        queue_of(queue_put(t, rid, q), other) == if other == rid {
            q
        } else {
            queue_of(t, other)
        },
{
    let u = queue_put(t, rid, q);
    lemma_row_at(t, rid, 0);
    lemma_row_at(t, other, 0);
    lemma_row_same(t, u, other, 0);
}

proof fn lemma_row_same(
    t: Seq<(Rid, Seq<LockRequest>)>,
    u: Seq<(Rid, Seq<LockRequest>)>,
    rid: Rid,
    i: int,
)
    requires
        0 <= i <= t.len() <= u.len() <= t.len() + 1,
        forall|k: int| 0 <= k < t.len() ==> (#[trigger] u[k]).0 == t[k].0,
    ensures
        row_at(u, rid, i) == match row_at(t, rid, i) {
            Some(k) => Some(k),
            None => if u.len() > t.len() && u[t.len() as int].0 == rid {
                Some(t.len() as int)
            } else {
                None
            },
        },
    decreases t.len() - i,
{
    if i < t.len() {
        assert(u[i].0 == t[i].0);
        if t[i].0 != rid {
            lemma_row_same(t, u, rid, i + 1);
        }
    } else if u.len() > t.len() {
        assert(row_at(u, rid, i + 1) is None);
    }
}

/// A graph whose edges are all in an acyclic one is acyclic.
proof fn lemma_subgraph(w: Seq<(u32, Seq<u32>)>, v: Seq<(u32, Seq<u32>)>)
    requires
        acyclic(w),
        forall|a: u32, b: u32| #[trigger] waits(v, a, b) ==> waits(w, a, b),
    ensures
        acyclic(v),
{
    assert forall|a: u32| !in_cycle(v, a) by {
        if in_cycle(v, a) {
            let path = choose|path: Seq<u32>|
                #![trigger wait_path(v, path)]
                path.len() >= 2 && path[0] == a && path.last() == a && wait_path(v, path);
            assert(wait_path(w, path)) by {
                assert forall|k: int, l: int| 0 <= k && l == k + 1 && l < path.len() implies waits(
                    w,
                    #[trigger] path[k],
                    #[trigger] path[l],
                ) by {
                    assert(waits(v, path[k], path[l]));
                }
            }
            assert(in_cycle(w, a));
        }
    }
}

pub proof fn lemma_without_waiter(w: Seq<(u32, Seq<u32>)>, txn_id: u32, a: u32, b: u32)
    ensures
        waits(without_waiter(w, txn_id), a, b) <==> a != txn_id && waits(w, a, b),
{
    let p = other_waiter(txn_id);
    let f = without_waiter(w, txn_id);
    lemma_filter_members(w, p);
    if waits(f, a, b) {
        let i = choose|i: int| 0 <= i < f.len() && (#[trigger] f[i]).0 == a && f[i].1.contains(b);
        assert(f.contains(f[i]));
        let j = choose|j: int| 0 <= j < w.len() && w[j] == f[i];
        assert(w[j].0 == a);
    }
    if a != txn_id && waits(w, a, b) {
        let j = choose|j: int| 0 <= j < w.len() && (#[trigger] w[j]).0 == a && w[j].1.contains(b);
        assert(w.contains(w[j]));
        assert(f.contains(w[j]));
        let i = choose|i: int| 0 <= i < f.len() && f[i] == w[j];
        assert(f[i].0 == a);
    }
}

/// A graph stays acyclic when a transaction comes to wait, unless it waits for itself.
proof fn lemma_with_waiter(w: Seq<(u32, Seq<u32>)>, txn_id: u32, list: Seq<u32>)
    requires
        acyclic(w),
        !in_cycle(with_waiter(w, txn_id, list), txn_id),
    ensures
        acyclic(with_waiter(w, txn_id, list)),
{
    let g = with_waiter(w, txn_id, list);
    let rest = without_waiter(w, txn_id);
    assert forall|a: u32, b: u32| a != txn_id && #[trigger] waits(g, a, b) implies waits(
        w,
        a,
        b,
    ) by {
        let i = choose|i: int| 0 <= i < g.len() && (#[trigger] g[i]).0 == a && g[i].1.contains(b);
        assert(i < rest.len());
        assert(rest[i] == g[i]);
        assert(waits(rest, a, b));
        lemma_without_waiter(w, txn_id, a, b);
    }
    assert forall|a: u32| !in_cycle(g, a) by {
        if in_cycle(g, a) {
            let path = choose|path: Seq<u32>|
                #![trigger wait_path(g, path)]
                path.len() >= 2 && path[0] == a && path.last() == a && wait_path(g, path);
            if exists|k: int| 0 <= k < path.len() - 1 && path[k] == txn_id {
                let k = choose|k: int| 0 <= k < path.len() - 1 && path[k] == txn_id;
                let n = path.len();
                let round = path.subrange(k, n as int) + path.subrange(1, k + 1);
                assert(wait_path(g, round)) by {
                    assert forall|i: int, j: int|
                        0 <= i && j == i + 1 && j < round.len() implies waits(
                        g,
                        #[trigger] round[i],
                        #[trigger] round[j],
                    ) by {
                        if j < n - k {
                            assert(waits(g, path[k + i], path[k + j]));
                        } else if i < n - k {
                            assert(round[i] == path[n - 1]);
                            assert(round[j] == path[1]);
                            assert(waits(g, path[0], path[1]));
                        } else {
                            let x = i - (n - k) + 1;
                            assert(round[i] == path[x]);
                            assert(round[j] == path[x + 1]);
                            assert(waits(g, path[x], path[x + 1]));
                        }
                    }
                }
                assert(round[0] == txn_id);
                assert(round.last() == txn_id) by {
                    if k == 0 {
                        assert(round =~= path);
                    } else {
                        assert(round.last() == path[k]);
                    }
                }
                assert(in_cycle(g, txn_id));
            } else {
                assert(wait_path(w, path)) by {
                    assert forall|k: int, l: int|
                        0 <= k && l == k + 1 && l < path.len() implies waits(
                        w,
                        #[trigger] path[k],
                        #[trigger] path[l],
                    ) by {
                        assert(waits(g, path[k], path[l]));
                        assert(path[k] != txn_id);
                    }
                }
                assert(in_cycle(w, a));
            }
        }
    }
}

/// A lock manager starts without conflicts.
pub proof fn law_no_locks()
    ensures
        locks_ok(LockView { table: Seq::empty(), waits_for: Seq::empty() }),
{
    let w = Seq::<(u32, Seq<u32>)>::empty();
    assert forall|a: u32| !in_cycle(w, a) by {
        if in_cycle(w, a) {
            let path = choose|path: Seq<u32>|
                #![trigger wait_path(w, path)]
                path.len() >= 2 && path[0] == a && path.last() == a && wait_path(w, path);
            assert(waits(w, path[0], path[1]));
        }
    }
}

proof fn lemma_put_ok(v: LockView, rid: Rid, q: Seq<LockRequest>)
    requires
        locks_ok(v),
        exclusion(q),
    ensures
        locks_ok(LockView { table: queue_put(v.table, rid, q), ..v }),
{
    lemma_row_at(v.table, rid, 0);
    let t = queue_put(v.table, rid, q);
    assert forall|k: int| 0 <= k < t.len() implies exclusion((#[trigger] t[k]).1) by {
        if k < v.table.len() && t[k] == v.table[k] {
            assert(exclusion(v.table[k].1));
        }
    }
}

/// Asking for a lock never makes two transactions hold conflicting locks, and never makes a
/// transaction wait for itself. A lock that is reported as granted is held.
pub proof fn law_acquire(v: LockView, txn_id: u32, rid: Rid, mode: LockMode)
    requires
        locks_ok(v),
    ensures
        locks_ok(lock_acquire(v, txn_id, rid, mode).0),
        lock_acquire(v, txn_id, rid, mode).1 == Ok::<bool, Seq<char>>(true) ==> lock_held(
            lock_acquire(v, txn_id, rid, mode).0,
            txn_id,
            rid,
            mode,
        ),
{
    let q = queue_of(v.table, rid);
    lemma_row_at(v.table, rid, 0);
    assert(exclusion(q)) by {
        if let Some(i) = row_at(v.table, rid, 0) {
            assert(exclusion(v.table[i].1));
        }
    }
    lemma_put_ok(v, rid, q);
    lemma_queue_put(v.table, rid, q, rid);
    if holds(q, txn_id) && (mode == LockMode::Shared || holds_exclusive(q, txn_id)) {
        let i = if mode == LockMode::Shared {
            choose|i: int| 0 <= i < q.len() && (#[trigger] q[i]).granted && q[i].txn_id == txn_id
        } else {
            choose|i: int|
                0 <= i < q.len() && (#[trigger] q[i]).granted && q[i].txn_id == txn_id && q[i].mode
                    == LockMode::Exclusive
        };
        assert(q[i].granted);
    } else if holds(q, txn_id) && grantable(q, txn_id, LockMode::Exclusive) {
        let u = upgraded(q, txn_id);
        assert(exclusion(u)) by {
            assert forall|i: int, j: int|
                0 <= i < u.len() && 0 <= j < u.len() && (#[trigger] u[i]).granted && (
                #[trigger] u[j]).granted && u[i].mode == LockMode::Exclusive implies u[i].txn_id
                == u[j].txn_id by {
                assert(q[i].granted && q[j].granted);
            }
        }
        lemma_put_ok(v, rid, u);
        lemma_queue_put(v.table, rid, u, rid);
        let i = choose|i: int|
            0 <= i < q.len() && (#[trigger] q[i]).granted && q[i].txn_id == txn_id;
        assert(u[i].granted);
    } else {
        let granted = grantable(q, txn_id, mode);
        let longer = q.push(LockRequest { txn_id, mode, granted });
        assert(exclusion(longer)) by {
            lemma_count_zero(q, LockMode::Exclusive);
            assert forall|i: int, j: int|
                0 <= i < longer.len() && 0 <= j < longer.len() && (#[trigger] longer[i]).granted
                    && (#[trigger] longer[j]).granted && longer[i].mode
                    == LockMode::Exclusive implies longer[i].txn_id == longer[j].txn_id by {
                if i < q.len() {
                    assert(q[i].granted);
                }
                if j < q.len() {
                    assert(q[j].granted);
                }
                if holds_exclusive(q, txn_id) {
                    let h = choose|h: int|
                        0 <= h < q.len() && (#[trigger] q[h]).granted && q[h].txn_id == txn_id
                            && q[h].mode == LockMode::Exclusive;
                    if i < q.len() {
                        assert(q[h].txn_id == q[i].txn_id);
                    }
                    if j < q.len() {
                        assert(q[h].txn_id == q[j].txn_id);
                    }
                }
            }
        }
        lemma_put_ok(v, rid, longer);
        lemma_queue_put(v.table, rid, longer, rid);
        if granted {
            assert(longer[q.len() as int].granted);
        } else {
            let list = blockers(longer, txn_id);
            let graph = with_waiter(v.waits_for, txn_id, list);
            if in_cycle(graph, txn_id) {
                lemma_filter_exclusion(
                    longer,
                    |r: LockRequest| r.txn_id != txn_id || r.granted,
                );
                lemma_put_ok(v, rid, without_waiting(longer, txn_id));
                assert forall|a: u32, b: u32| #[trigger]
                    waits(without_waiter(v.waits_for, txn_id), a, b) implies waits(
                    v.waits_for,
                    a,
                    b,
                ) by {
                    lemma_without_waiter(v.waits_for, txn_id, a, b);
                }
                lemma_subgraph(v.waits_for, without_waiter(v.waits_for, txn_id));
            } else {
                lemma_with_waiter(v.waits_for, txn_id, list);
            }
        }
    }
}

pub proof fn lemma_released_row(v: LockView, txn_id: u32, rid: Rid)
    ensures
        queue_of(lock_release(v, txn_id).table, rid) == released(queue_of(v.table, rid), txn_id),
{
    let u = lock_release(v, txn_id).table;
    lemma_row_at(v.table, rid, 0);
    lemma_row_same(v.table, u, rid, 0);
    if row_at(v.table, rid, 0) is None {
        reveal(Seq::filter);
        assert(without_txn(Seq::empty(), txn_id) =~= Seq::empty());
        assert(released(Seq::empty(), txn_id) =~= Seq::empty());
    }
}

/// Releasing the locks of a transaction leaves it with none, takes none from the others, and keeps
/// the lock manager without conflicts.
pub proof fn law_release(v: LockView, txn_id: u32, other: u32, rid: Rid, mode: LockMode)
    requires
        locks_ok(v),
    ensures
        locks_ok(lock_release(v, txn_id)),
        !lock_held(lock_release(v, txn_id), txn_id, rid, mode),
        other != txn_id && lock_held(v, other, rid, mode) ==> lock_held(
            lock_release(v, txn_id),
            other,
            rid,
            mode,
        ),
{
    let u = lock_release(v, txn_id);
    let p = |r: LockRequest| r.txn_id != txn_id;
    assert forall|k: int| 0 <= k < u.table.len() implies exclusion((#[trigger] u.table[k]).1) by {
        let q = v.table[k].1;
        assert(exclusion(q));
        lemma_filter_exclusion(q, p);
        lemma_woken_exclusion(without_txn(q, txn_id), without_txn(q, txn_id).len());
    }
    let w = v.waits_for;
    assert forall|a: u32, b: u32| #[trigger] waits(u.waits_for, a, b) implies waits(w, a, b) by {
        let f = without_waiter(w, txn_id);
        let i = choose|i: int|
            0 <= i < u.waits_for.len() && (#[trigger] u.waits_for[i]).0 == a
                && u.waits_for[i].1.contains(b);
        lemma_filter_members(f[i].1, other_txn(txn_id));
        assert(f[i].0 == a && f[i].1.contains(b));
        assert(waits(f, a, b));
        lemma_without_waiter(w, txn_id, a, b);
    }
    lemma_subgraph(w, u.waits_for);
    // The row in question.
    let q = queue_of(v.table, rid);
    let rest = without_txn(q, txn_id);
    let r = released(q, txn_id);
    lemma_released_row(v, txn_id, rid);
    lemma_filter_members(q, p);
    lemma_woken_rest(rest, rest.len());
    assert forall|i: int| 0 <= i < r.len() implies (#[trigger] r[i]).txn_id != txn_id by {
        assert(r[i].txn_id == rest[i].txn_id);
        assert(rest.contains(rest[i]));
    }
    if other != txn_id && lock_held(v, other, rid, mode) {
        let i = choose|i: int|
            0 <= i < q.len() && (#[trigger] q[i]).granted && q[i].txn_id == other && (q[i].mode
                == mode || q[i].mode == LockMode::Exclusive);
        assert(q.contains(q[i]));
        assert(rest.contains(q[i]));
        let j = choose|j: int| 0 <= j < rest.len() && rest[j] == q[i];
        assert(r[j].granted && r[j].txn_id == other && r[j].mode == q[i].mode);
    }
}

/// While a transaction holds an exclusive lock on a row, no other transaction holds a lock on it.
pub proof fn law_exclusive(v: LockView, a: u32, b: u32, rid: Rid, mode: LockMode)
    requires
        locks_ok(v),
        lock_held(v, a, rid, LockMode::Exclusive),
        lock_held(v, b, rid, mode),
    ensures
        a == b,
{
    let q = queue_of(v.table, rid);
    lemma_row_at(v.table, rid, 0);
    let k = row_at(v.table, rid, 0)->0;
    assert(exclusion(v.table[k].1));
    let i = choose|i: int|
        0 <= i < q.len() && (#[trigger] q[i]).granted && q[i].txn_id == a && q[i].mode
            == LockMode::Exclusive;
    let j = choose|j: int|
        0 <= j < q.len() && (#[trigger] q[j]).granted && q[j].txn_id == b && (q[j].mode == mode
            || q[j].mode == LockMode::Exclusive);
    assert(q[i].granted && q[j].granted);
}

/// After a release, a request waits only where it has to: a shared one behind a granted exclusive
/// lock, an exclusive one behind a granted lock.
pub proof fn law_release_wakes(q: Seq<LockRequest>, txn_id: u32, i: int)
    requires
        0 <= i < released(q, txn_id).len(),
        !released(q, txn_id)[i].granted,
    ensures
        exists|j: int|
            0 <= j < released(q, txn_id).len() && (#[trigger] released(q, txn_id)[j]).granted && (
            released(q, txn_id)[i].mode == LockMode::Exclusive || released(q, txn_id)[j].mode
                == LockMode::Exclusive),
{
    let rest = without_txn(q, txn_id);
    lemma_woken_rest(rest, rest.len());
    lemma_still_waiting(rest, i, rest.len());
    let r = released(q, txn_id);
    let u = woken(rest, rest.len());
    let j = choose|j: int|
        0 <= j < rest.len() && (#[trigger] u[j]).granted && (u[i].mode == LockMode::Exclusive
            || u[j].mode == LockMode::Exclusive);
    assert(r[j].granted);
}

proof fn lemma_still_waiting(q: Seq<LockRequest>, i: int, n: nat)
    requires
        0 <= i < n <= q.len(),
        !woken(q, n)[i].granted,
    ensures
        exists|j: int|
            0 <= j < q.len() && (#[trigger] woken(q, n)[j]).granted && (woken(q, n)[i].mode
                == LockMode::Exclusive || woken(q, n)[j].mode == LockMode::Exclusive),
    decreases n,
{
    lemma_woken_rest(q, (n - 1) as nat);
    lemma_woken_rest(q, n);
    let p = woken(q, (n - 1) as nat);
    let u = woken(q, n);
    assert(p[i].mode == u[i].mode);
    if i < n - 1 {
        assert(!p[i].granted);
        lemma_still_waiting(q, i, (n - 1) as nat);
        let j = choose|j: int|
            0 <= j < q.len() && (#[trigger] p[j]).granted && (p[i].mode == LockMode::Exclusive
                || p[j].mode == LockMode::Exclusive);
        assert(u[j].granted && u[j].mode == p[j].mode);
    } else {
        lemma_count_zero(p, LockMode::Exclusive);
        lemma_count_zero(p, LockMode::Shared);
        assert(!wakes(p, p[i].mode));
        assert(u == p);
        if granted_count(p, LockMode::Exclusive) != 0 {
            let j = choose|j: int|
                0 <= j < p.len() && (#[trigger] p[j]).granted && p[j].mode == LockMode::Exclusive;
            assert(u[j].granted);
        } else {
            let j = choose|j: int|
                0 <= j < p.len() && (#[trigger] p[j]).granted && p[j].mode == LockMode::Shared;
            assert(u[j].granted);
        }
    }
}

} // verus!
