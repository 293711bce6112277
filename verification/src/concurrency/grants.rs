//! Who is given a lock, who waits and who is refused.
use crate::concurrency::lock_manager::{
    blockers, exclusion, grantable, granted_count, granted_upto, holds, holds_exclusive, in_cycle,
    law_release_wakes, lemma_count_zero, lemma_filter_members, lemma_queue_put, lemma_released_row,
    lemma_row_at, lemma_without_waiter, lemma_woken_rest, lock_acquire, lock_held, lock_release,
    locks_ok, other_txn, others_hold, queue_of, queue_put, reaches, released, row_at, upgraded,
    wait_path, waits, with_waiter, without_target, without_txn, without_waiter, without_waiting,
    woken, LockMode, LockRequest, LockView,
};
use crate::concurrency::transaction::Rid;
use vstd::prelude::*;

verus! {

/// What `other` holds on the row conflicts with a lock of this mode: an exclusive lock conflicts with
/// a shared one, any lock with an exclusive one.
pub open spec fn in_the_way(v: LockView, other: u32, rid: Rid, mode: LockMode) -> bool {
    match mode {
        LockMode::Shared => lock_held(v, other, rid, LockMode::Exclusive),
        LockMode::Exclusive => lock_held(v, other, rid, LockMode::Shared),
    }
}

/// No other transaction is in the way.
pub open spec fn way_is_free(v: LockView, txn_id: u32, rid: Rid, mode: LockMode) -> bool {
    forall|other: u32| other != txn_id ==> !#[trigger] in_the_way(v, other, rid, mode)
}

/// Whoever may write may read.
pub proof fn law_exclusive_covers_shared(v: LockView, txn_id: u32, rid: Rid)
    requires
        lock_held(v, txn_id, rid, LockMode::Exclusive),
    ensures
        lock_held(v, txn_id, rid, LockMode::Shared),
{
}

proof fn lemma_held(v: LockView, txn_id: u32, rid: Rid)
    ensures
        lock_held(v, txn_id, rid, LockMode::Shared) == holds(queue_of(v.table, rid), txn_id),
        lock_held(v, txn_id, rid, LockMode::Exclusive) == holds_exclusive(
            queue_of(v.table, rid),
            txn_id,
        ),
{
    let q = queue_of(v.table, rid);
    if holds(q, txn_id) {
        let i = choose|i: int|
            0 <= i < q.len() && (#[trigger] q[i]).granted && q[i].txn_id == txn_id;
        assert(q[i].mode == LockMode::Shared || q[i].mode == LockMode::Exclusive);
    }
}

proof fn lemma_row_exclusion(v: LockView, rid: Rid)
    requires
        locks_ok(v),
    ensures
        exclusion(queue_of(v.table, rid)),
{
    lemma_row_at(v.table, rid, 0);
    if let Some(i) = row_at(v.table, rid, 0) {
        assert(exclusion(v.table[i].1));
    }
}

/// A lock is granted exactly where no other transaction is in the way: a shared one where no other
/// holds an exclusive lock on the row, however many share it; an exclusive one where no other holds
/// any.
pub proof fn law_lock_is_granted(v: LockView, txn_id: u32, rid: Rid, mode: LockMode)
    requires
        locks_ok(v),
    ensures
        lock_acquire(v, txn_id, rid, mode).1 == Ok::<bool, Seq<char>>(true) <==> way_is_free(
            v,
            txn_id,
            rid,
            mode,
        ),
{
    let q = queue_of(v.table, rid);
    lemma_row_exclusion(v, rid);
    lemma_count_zero(q, LockMode::Exclusive);
    lemma_held(v, txn_id, rid);
    if way_is_free(v, txn_id, rid, mode) {
        assert(grantable(q, txn_id, mode)) by {
            match mode {
                LockMode::Shared => {
                    if granted_count(q, LockMode::Exclusive) != 0 {
                        let i = choose|i: int|
                            0 <= i < q.len() && (#[trigger] q[i]).granted && q[i].mode
                                == LockMode::Exclusive;
                        if q[i].txn_id != txn_id {
                            assert(in_the_way(v, q[i].txn_id, rid, mode));
                        }
                    }
                },
                LockMode::Exclusive => {
                    if others_hold(q, txn_id) {
                        let i = choose|i: int|
                            0 <= i < q.len() && (#[trigger] q[i]).granted && q[i].txn_id != txn_id;
                        assert(q[i].mode == LockMode::Shared || q[i].mode == LockMode::Exclusive);
                        assert(in_the_way(v, q[i].txn_id, rid, mode));
                    }
                },
            }
        }
    } else {
        let other = choose|other: u32| other != txn_id && #[trigger] in_the_way(v, other, rid, mode);
        let i = match mode {
            LockMode::Shared => choose|i: int|
                0 <= i < q.len() && (#[trigger] q[i]).granted && q[i].txn_id == other && q[i].mode
                    == LockMode::Exclusive,
            LockMode::Exclusive => choose|i: int|
                0 <= i < q.len() && (#[trigger] q[i]).granted && q[i].txn_id == other,
        };
        assert(q[i].granted && q[i].txn_id == other);
        if holds_exclusive(q, txn_id) {
            let h = choose|h: int|
                0 <= h < q.len() && (#[trigger] q[h]).granted && q[h].txn_id == txn_id && q[h].mode
                    == LockMode::Exclusive;
            assert(q[h].txn_id == q[i].txn_id);
        }
        if mode == LockMode::Shared && holds(q, txn_id) {
            let h = choose|h: int|
                0 <= h < q.len() && (#[trigger] q[h]).granted && q[h].txn_id == txn_id;
            assert(q[i].txn_id == q[h].txn_id);
        }
    }
}

/// Asking for a lock changes what is held only where it is granted, and there only for the one that
/// asked, on the row asked for: what it held it keeps, and it holds what it asked for.
pub proof fn law_others_keep_their_locks(
    v: LockView,
    txn_id: u32,
    rid: Rid,
    mode: LockMode,
    other: u32,
    row: Rid,
    m: LockMode,
)
    requires
        locks_ok(v),
    ensures
        lock_held(lock_acquire(v, txn_id, rid, mode).0, other, row, m) == (lock_held(
            v,
            other,
            row,
            m,
        ) || (other == txn_id && row == rid && way_is_free(v, txn_id, rid, mode) && (m == mode
            || mode == LockMode::Exclusive))),
{
    law_lock_is_granted(v, txn_id, rid, mode);
    let q = queue_of(v.table, rid);
    let u = lock_acquire(v, txn_id, rid, mode).0;
    let granted = grantable(q, txn_id, mode);
    let longer = q.push(LockRequest { txn_id, mode, granted });
    lemma_queue_put(v.table, rid, q, row);
    lemma_queue_put(v.table, rid, upgraded(q, txn_id), row);
    lemma_queue_put(v.table, rid, longer, row);
    lemma_queue_put(v.table, rid, without_waiting(longer, txn_id), row);
    lemma_held(v, txn_id, rid);
    if row == rid {
        let r = queue_of(u.table, rid);
        let covers = |x: LockRequest|
            x.granted && x.txn_id == other && (x.mode == m || x.mode == LockMode::Exclusive);
        if holds(q, txn_id) && (mode == LockMode::Shared || holds_exclusive(q, txn_id)) {
            assert(r == q);
            assert(m == LockMode::Shared || m == LockMode::Exclusive);
        } else if holds(q, txn_id) && grantable(q, txn_id, LockMode::Exclusive) {
            assert(r == upgraded(q, txn_id));
            let h = choose|h: int|
                0 <= h < q.len() && (#[trigger] q[h]).granted && q[h].txn_id == txn_id;
            assert(r[h].granted && r[h].txn_id == txn_id && r[h].mode == LockMode::Exclusive);
            if lock_held(v, other, rid, m) {
                let i = choose|i: int| 0 <= i < q.len() && covers(#[trigger] q[i]);
                assert(covers(r[i]));
            }
            if lock_held(u, other, rid, m) && other != txn_id {
                let i = choose|i: int| 0 <= i < r.len() && covers(#[trigger] r[i]);
                assert(covers(q[i]));
            }
        } else if granted {
            assert(r == longer);
            if lock_held(v, other, rid, m) {
                let i = choose|i: int| 0 <= i < q.len() && covers(#[trigger] q[i]);
                assert(covers(r[i]));
            }
            if lock_held(u, other, rid, m) {
                let i = choose|i: int| 0 <= i < r.len() && covers(#[trigger] r[i]);
                if i < q.len() {
                    assert(covers(q[i]));
                }
            }
            assert(r[q.len() as int].granted);
        } else {
            let p = |x: LockRequest| x.txn_id != txn_id || x.granted;
            lemma_filter_members(longer, p);
            if lock_held(v, other, rid, m) {
                let i = choose|i: int| 0 <= i < q.len() && covers(#[trigger] q[i]);
                assert(longer[i] == q[i]);
                assert(longer.contains(q[i]));
                assert(longer.filter(p).contains(q[i]));
                assert(r.contains(q[i]));
                let j = choose|j: int| 0 <= j < r.len() && r[j] == q[i];
                assert(covers(r[j]));
            }
            if lock_held(u, other, rid, m) {
                let j = choose|j: int| 0 <= j < r.len() && covers(#[trigger] r[j]);
                assert(r.contains(r[j]));
                assert(longer.contains(r[j])) by {
                    assert(r == longer || r == longer.filter(p));
                    if r == longer.filter(p) {
                        assert(longer.filter(p).contains(r[j]));
                    }
                }
                let i = choose|i: int| 0 <= i < longer.len() && longer[i] == r[j];
                assert(i < q.len());
                assert(covers(q[i]));
            }
        }
    }
}

proof fn lemma_blockers(q: Seq<LockRequest>, txn_id: u32, b: u32)
    ensures
        blockers(q, txn_id).contains(b) <==> b != txn_id && holds(q, b),
{
    let p = |r: LockRequest| r.granted && r.txn_id != txn_id;
    let f = q.filter(p);
    let list = blockers(q, txn_id);
    lemma_filter_members(q, p);
    if list.contains(b) {
        let i = choose|i: int| 0 <= i < list.len() && list[i] == b;
        assert(f.contains(f[i]));
        let j = choose|j: int| 0 <= j < q.len() && q[j] == f[i];
        assert(q[j].granted && q[j].txn_id == b);
    }
    if b != txn_id && holds(q, b) {
        let j = choose|j: int| 0 <= j < q.len() && (#[trigger] q[j]).granted && q[j].txn_id == b;
        assert(q.contains(q[j]));
        assert(f.contains(q[j]));
        let i = choose|i: int| 0 <= i < f.len() && f[i] == q[j];
        assert(list[i] == b);
    }
}

/// Whom a transaction waits for once it came to wait for `list`.
proof fn lemma_waits_with(w: Seq<(u32, Seq<u32>)>, txn_id: u32, list: Seq<u32>, a: u32, b: u32)
    ensures
        waits(with_waiter(w, txn_id, list), a, b) <==> if a == txn_id {
            list.contains(b)
        } else {
            waits(w, a, b)
        },
{
    let rest = without_waiter(w, txn_id);
    let g = with_waiter(w, txn_id, list);
    lemma_without_waiter(w, txn_id, a, b);
    if waits(g, a, b) {
        let i = choose|i: int| 0 <= i < g.len() && (#[trigger] g[i]).0 == a && g[i].1.contains(b);
        if i < rest.len() {
            assert(rest[i].0 == a);
            assert(waits(rest, a, b));
        }
    }
    if waits(rest, a, b) {
        let i = choose|i: int|
            0 <= i < rest.len() && (#[trigger] rest[i]).0 == a && rest[i].1.contains(b);
        assert(g[i].0 == a);
    }
    if a == txn_id && list.contains(b) {
        assert(g[rest.len() as int].0 == txn_id);
    }
}

/// The holders of the row after the request was queued are those before.
proof fn lemma_queued_blockers(v: LockView, txn_id: u32, rid: Rid, mode: LockMode, b: u32)
    ensures
        blockers(
            queue_of(v.table, rid).push(LockRequest { txn_id, mode, granted: false }),
            txn_id,
        ).contains(b) <==> b != txn_id && lock_held(v, b, rid, LockMode::Shared),
{
    let q = queue_of(v.table, rid);
    let longer = q.push(LockRequest { txn_id, mode, granted: false });
    lemma_blockers(longer, txn_id, b);
    lemma_held(v, b, rid);
    if holds(longer, b) {
        let i = choose|i: int|
            0 <= i < longer.len() && (#[trigger] longer[i]).granted && longer[i].txn_id == b;
        assert(q[i].granted);
    }
    if holds(q, b) {
        let i = choose|i: int| 0 <= i < q.len() && (#[trigger] q[i]).granted && q[i].txn_id == b;
        assert(longer[i].granted);
    }
}

/// Whoever has to wait waits for the others that hold the row. Whoever is refused waits for nobody.
/// What the other transactions wait for stays as it was, and a granted lock changes nothing.
pub proof fn law_who_waits_for_whom(
    v: LockView,
    txn_id: u32,
    rid: Rid,
    mode: LockMode,
    a: u32,
    b: u32,
)
    requires
        locks_ok(v),
    ensures
        waits(lock_acquire(v, txn_id, rid, mode).0.waits_for, a, b) <==> if a != txn_id {
            waits(v.waits_for, a, b)
        } else {
            match lock_acquire(v, txn_id, rid, mode).1 {
                Ok(true) => waits(v.waits_for, a, b),
                Ok(false) => b != txn_id && lock_held(v, b, rid, LockMode::Shared),
                Err(_) => false,
            }
        },
{
    let q = queue_of(v.table, rid);
    let longer = q.push(LockRequest { txn_id, mode, granted: false });
    lemma_waits_with(v.waits_for, txn_id, blockers(longer, txn_id), a, b);
    lemma_without_waiter(v.waits_for, txn_id, a, b);
    lemma_queued_blockers(v, txn_id, rid, mode, b);
}

/// A path to `txn_id` that it does not pass earlier is there whatever the transaction waits for.
proof fn lemma_same_path(
    w: Seq<(u32, Seq<u32>)>,
    g: Seq<(u32, Seq<u32>)>,
    txn_id: u32,
    path: Seq<u32>,
)
    requires
        wait_path(w, path),
        forall|k: int| 0 <= k < path.len() - 1 ==> path[k] != txn_id,
        forall|a: u32, b: u32| a != txn_id && #[trigger] waits(w, a, b) ==> waits(g, a, b),
    ensures
        wait_path(g, path),
{
    assert forall|k: int, l: int| 0 <= k && l == k + 1 && l < path.len() implies waits(
        g,
        #[trigger] path[k],
        #[trigger] path[l],
    ) by {
        assert(waits(w, path[k], path[l]));
    }
}

/// From `start` on, the part of a path up to where it first meets `txn_id`.
proof fn lemma_first_meeting(
    w: Seq<(u32, Seq<u32>)>,
    path: Seq<u32>,
    txn_id: u32,
    n: int,
) -> (short: Seq<u32>)
    requires
        wait_path(w, path),
        2 <= n <= path.len(),
        path[n - 1] == txn_id,
        path[0] != txn_id,
    ensures
        wait_path(w, short),
        short.len() >= 2,
        short[0] == path[0],
        short.last() == txn_id,
        forall|k: int| 0 <= k < short.len() - 1 ==> short[k] != txn_id,
    decreases n,
{
    if exists|k: int| 0 <= k < n - 1 && path[k] == txn_id {
        let k = choose|k: int| 0 <= k < n - 1 && path[k] == txn_id;
        lemma_first_meeting(w, path, txn_id, k + 1)
    } else {
        let short = path.take(n);
        assert forall|k: int, l: int| 0 <= k && l == k + 1 && l < short.len() implies waits(
            w,
            #[trigger] short[k],
            #[trigger] short[l],
        ) by {
            assert(waits(w, path[k], path[l]));
        }
        short
    }
}

/// Where a cycle leaves `txn_id` for the last time.
proof fn lemma_last_departure(
    g: Seq<(u32, Seq<u32>)>,
    path: Seq<u32>,
    txn_id: u32,
    from: int,
) -> (k: int)
    requires
        0 <= from < path.len() - 1,
        path[from] == txn_id,
    ensures
        from <= k < path.len() - 1,
        path[k] == txn_id,
        forall|i: int| k < i < path.len() - 1 ==> path[i] != txn_id,
    decreases path.len() - from,
{
    if exists|i: int| from < i < path.len() - 1 && path[i] == txn_id {
        let i = choose|i: int| from < i < path.len() - 1 && path[i] == txn_id;
        lemma_last_departure(g, path, txn_id, i)
    } else {
        from
    }
}

/// A request is refused exactly where it cannot be granted and one that holds the row already waits,
/// directly or through others, for the one that asks: to wait would be a deadlock.
pub proof fn law_deadlock_is_refused(v: LockView, txn_id: u32, rid: Rid, mode: LockMode)
    requires
        locks_ok(v),
    ensures
        lock_acquire(v, txn_id, rid, mode).1 is Err <==> !way_is_free(v, txn_id, rid, mode)
            && exists|holder: u32|
            holder != txn_id && lock_held(v, holder, rid, LockMode::Shared) && #[trigger] reaches(
                v.waits_for,
                holder,
                txn_id,
            ),
{
    law_lock_is_granted(v, txn_id, rid, mode);
    if !way_is_free(v, txn_id, rid, mode) {
        let w = v.waits_for;
        let q = queue_of(v.table, rid);
        let longer = q.push(LockRequest { txn_id, mode, granted: false });
        let list = blockers(longer, txn_id);
        let g = with_waiter(w, txn_id, list);
        assert forall|a: u32, b: u32| a != txn_id && #[trigger] waits(w, a, b) implies waits(
            g,
            a,
            b,
        ) by {
            lemma_waits_with(w, txn_id, list, a, b);
        }
        assert forall|a: u32, b: u32| a != txn_id && #[trigger] waits(g, a, b) implies waits(
            w,
            a,
            b,
        ) by {
            lemma_waits_with(w, txn_id, list, a, b);
        }
        if in_cycle(g, txn_id) {
            let path = choose|path: Seq<u32>|
                #![trigger wait_path(g, path)]
                path.len() >= 2 && path[0] == txn_id && path.last() == txn_id && wait_path(g, path);
            let k = lemma_last_departure(g, path, txn_id, 0);
            let holder = path[k + 1];
            assert(waits(g, path[k], path[k + 1]));
            lemma_waits_with(w, txn_id, list, txn_id, holder);
            lemma_queued_blockers(v, txn_id, rid, mode, holder);
            let tail = path.subrange(k + 1, path.len() as int);
            assert(wait_path(g, tail)) by {
                assert forall|i: int, j: int| 0 <= i && j == i + 1 && j < tail.len() implies waits(
                    g,
                    #[trigger] tail[i],
                    #[trigger] tail[j],
                ) by {
                    assert(waits(g, path[k + 1 + i], path[k + 1 + j]));
                }
            }
            lemma_same_path(g, w, txn_id, tail);
            assert(tail[0] == holder && tail.last() == txn_id);
            assert(reaches(w, holder, txn_id));
        }
        if exists|holder: u32|
            holder != txn_id && lock_held(v, holder, rid, LockMode::Shared) && #[trigger] reaches(
                w,
                holder,
                txn_id,
            ) {
            let holder = choose|holder: u32|
                holder != txn_id && lock_held(v, holder, rid, LockMode::Shared)
                    && #[trigger] reaches(w, holder, txn_id);
            let path = choose|path: Seq<u32>|
                #![trigger wait_path(w, path)]
                path.len() >= 2 && path[0] == holder && path.last() == txn_id && wait_path(w, path);
            let short = lemma_first_meeting(w, path, txn_id, path.len() as int);
            lemma_same_path(w, g, txn_id, short);
            lemma_queued_blockers(v, txn_id, rid, mode, holder);
            lemma_waits_with(w, txn_id, list, txn_id, holder);
            let round = seq![txn_id] + short;
            assert(wait_path(g, round)) by {
                assert forall|i: int, j: int| 0 <= i && j == i + 1 && j < round.len() implies waits(
                    g,
                    #[trigger] round[i],
                    #[trigger] round[j],
                ) by {
                    if i > 0 {
                        assert(waits(g, short[i - 1], short[j - 1]));
                    }
                }
            }
            assert(round[0] == txn_id && round.last() == txn_id);
            assert(in_cycle(g, txn_id));
        }
    }
}

/// A request that is refused is forgotten: the transaction has no request that waits for the row, so
/// that no release will ever grant it.
pub proof fn law_refused_request_is_forgotten(
    v: LockView,
    txn_id: u32,
    rid: Rid,
    mode: LockMode,
    holder: u32,
    m: LockMode,
)
    requires
        lock_acquire(v, txn_id, rid, mode).1 is Err,
    ensures
        ({
            let u = lock_acquire(v, txn_id, rid, mode).0;
            &&& forall|i: int|
                0 <= i < queue_of(u.table, rid).len() && (#[trigger] queue_of(u.table, rid)[i]).txn_id
                    == txn_id ==> queue_of(u.table, rid)[i].granted
            &&& lock_held(lock_release(u, holder), txn_id, rid, m) ==> lock_held(u, txn_id, rid, m)
        }),
{
    let u = lock_acquire(v, txn_id, rid, mode).0;
    let q = queue_of(v.table, rid);
    let longer = q.push(LockRequest { txn_id, mode, granted: false });
    let kept = without_waiting(longer, txn_id);
    let p = |r: LockRequest| r.txn_id != txn_id || r.granted;
    lemma_queue_put(v.table, rid, kept, rid);
    lemma_filter_members(longer, p);
    assert forall|i: int| 0 <= i < kept.len() && (#[trigger] kept[i]).txn_id
        == txn_id implies kept[i].granted by {
        assert(kept.contains(kept[i]));
        assert(longer.filter(p).contains(kept[i]));
    }
    if lock_held(lock_release(u, holder), txn_id, rid, m) && !lock_held(u, txn_id, rid, m) {
        law_only_waiters_are_woken(u, holder, txn_id, rid, m);
    }
}

/// After a transaction released its locks nobody waits for it and it waits for nobody. Who else waits
/// for whom stays as it was.
pub proof fn law_release_ends_waiting(v: LockView, txn_id: u32, a: u32, b: u32)
    ensures
        waits(lock_release(v, txn_id).waits_for, a, b) <==> a != txn_id && b != txn_id && waits(
            v.waits_for,
            a,
            b,
        ),
{
    let f = without_waiter(v.waits_for, txn_id);
    let u = without_target(f, txn_id);
    lemma_without_waiter(v.waits_for, txn_id, a, b);
    if waits(u, a, b) {
        let i = choose|i: int| 0 <= i < u.len() && (#[trigger] u[i]).0 == a && u[i].1.contains(b);
        lemma_filter_members(f[i].1, other_txn(txn_id));
        assert(f[i].0 == a && f[i].1.contains(b));
    }
    if b != txn_id && waits(f, a, b) {
        let i = choose|i: int| 0 <= i < f.len() && (#[trigger] f[i]).0 == a && f[i].1.contains(b);
        lemma_filter_members(f[i].1, other_txn(txn_id));
        assert(f[i].1.filter(other_txn(txn_id)).contains(b));
        assert(u[i].0 == a);
    }
}

/// Whoever had to wait holds the lock once a holder released its locks, unless somebody still is in
/// the way.
pub proof fn law_waiting_ends(v: LockView, txn_id: u32, rid: Rid, mode: LockMode, holder: u32)
    requires
        holder != txn_id,
        lock_acquire(v, txn_id, rid, mode).1 == Ok::<bool, Seq<char>>(false),
    ensures
        lock_held(
            lock_release(lock_acquire(v, txn_id, rid, mode).0, holder),
            txn_id,
            rid,
            mode,
        ) || exists|other: u32|
            #[trigger] in_the_way(
                lock_release(lock_acquire(v, txn_id, rid, mode).0, holder),
                other,
                rid,
                mode,
            ),
{
    let u = lock_acquire(v, txn_id, rid, mode).0;
    let z = lock_release(u, holder);
    let q = queue_of(v.table, rid);
    let request = LockRequest { txn_id, mode, granted: false };
    let longer = q.push(request);
    lemma_queue_put(v.table, rid, longer, rid);
    lemma_released_row(u, holder, rid);
    let p = |r: LockRequest| r.txn_id != holder;
    let rest = without_txn(longer, holder);
    lemma_filter_members(longer, p);
    assert(longer[q.len() as int] == request);
    assert(longer.contains(request));
    assert(longer.filter(p).contains(request));
    let i = choose|i: int| 0 <= i < rest.len() && rest[i] == request;
    let r = released(longer, holder);
    lemma_woken_rest(rest, rest.len());
    assert(r[i].txn_id == txn_id && r[i].mode == mode);
    if !r[i].granted {
        law_release_wakes(longer, holder, i);
        let j = choose|j: int|
            0 <= j < r.len() && (#[trigger] r[j]).granted && (r[i].mode == LockMode::Exclusive
                || r[j].mode == LockMode::Exclusive);
        assert(r[j].mode == LockMode::Shared || r[j].mode == LockMode::Exclusive);
        assert(in_the_way(z, r[j].txn_id, rid, mode));
    }
}

/// A release gives locks only to those that waited for the row.
pub proof fn law_only_waiters_are_woken(
    v: LockView,
    txn_id: u32,
    other: u32,
    rid: Rid,
    mode: LockMode,
)
    requires
        lock_held(lock_release(v, txn_id), other, rid, mode),
        !lock_held(v, other, rid, mode),
    ensures
        exists|i: int|
            0 <= i < queue_of(v.table, rid).len() && !(#[trigger] queue_of(
                v.table,
                rid,
            )[i]).granted && queue_of(v.table, rid)[i].txn_id == other && (queue_of(
                v.table,
                rid,
            )[i].mode == mode || queue_of(v.table, rid)[i].mode == LockMode::Exclusive),
{
    let q = queue_of(v.table, rid);
    let p = |r: LockRequest| r.txn_id != txn_id;
    let rest = without_txn(q, txn_id);
    let r = released(q, txn_id);
    lemma_released_row(v, txn_id, rid);
    lemma_filter_members(q, p);
    lemma_woken_rest(rest, rest.len());
    let j = choose|j: int|
        0 <= j < r.len() && (#[trigger] r[j]).granted && r[j].txn_id == other && (r[j].mode == mode
            || r[j].mode == LockMode::Exclusive);
    assert(rest.contains(rest[j]));
    assert(q.contains(rest[j])) by {
        assert(q.filter(p).contains(rest[j]));
    }
    let i = choose|i: int| 0 <= i < q.len() && q[i] == rest[j];
    assert(q[i].txn_id == other);
    assert(!q[i].granted);
}

/// How many requests of a queue are granted.
spec fn granted_in(q: Seq<LockRequest>) -> int {
    (granted_count(q, LockMode::Shared) + granted_count(q, LockMode::Exclusive)) as int
}

proof fn lemma_granted_step(q: Seq<LockRequest>)
    ensures
        q.len() > 0 ==> granted_in(q) == granted_in(q.drop_last()) + if q.last().granted {
            1int
        } else {
            0
        },
        q.len() == 0 ==> granted_in(q) == 0,
{
    if q.len() > 0 {
        assert(q.last().mode == LockMode::Shared || q.last().mode == LockMode::Exclusive);
    }
}

/// The number depends only on which requests are granted.
proof fn lemma_granted_alike(q: Seq<LockRequest>, r: Seq<LockRequest>)
    requires
        q.len() == r.len(),
        forall|i: int| 0 <= i < q.len() ==> (#[trigger] q[i]).granted == r[i].granted,
    ensures
        granted_in(q) == granted_in(r),
    decreases q.len(),
{
    lemma_granted_step(q);
    lemma_granted_step(r);
    if q.len() > 0 {
        assert forall|i: int| 0 <= i < q.drop_last().len() implies (
        #[trigger] q.drop_last()[i]).granted == r.drop_last()[i].granted by {
            assert(q[i].granted == r[i].granted);
        }
        lemma_granted_alike(q.drop_last(), r.drop_last());
        assert(q[q.len() - 1].granted == r[q.len() - 1].granted);
    }
}

/// To drop requests that wait leaves the number as it is.
proof fn lemma_granted_filter(q: Seq<LockRequest>, p: spec_fn(LockRequest) -> bool)
    requires
        forall|r: LockRequest| r.granted ==> #[trigger] p(r),
    ensures
        granted_in(q.filter(p)) == granted_in(q),
    decreases q.len(),
{
    reveal(Seq::filter);
    lemma_granted_step(q);
    if q.len() > 0 {
        lemma_granted_filter(q.drop_last(), p);
        let f = q.drop_last().filter(p);
        assert(f.push(q.last()).drop_last() =~= f);
        lemma_granted_step(f.push(q.last()));
    }
}

proof fn lemma_upto_same(
    t: Seq<(Rid, Seq<LockRequest>)>,
    u: Seq<(Rid, Seq<LockRequest>)>,
    n: nat,
    i: int,
)
    requires
        n <= t.len(),
        n <= u.len(),
        forall|k: int| 0 <= k < n && k != i ==> #[trigger] u[k] == t[k],
    ensures
        granted_upto(u, n) == granted_upto(t, n) + if 0 <= i < n {
            granted_in(u[i].1) - granted_in(t[i].1)
        } else {
            0
        },
    decreases n,
{
    if n > 0 {
        lemma_upto_same(t, u, (n - 1) as nat, i);
        if n - 1 != i {
            assert(u[n - 1] == t[n - 1]);
        }
    }
}

proof fn lemma_put_counts(t: Seq<(Rid, Seq<LockRequest>)>, rid: Rid, q: Seq<LockRequest>)
    ensures
        granted_upto(queue_put(t, rid, q), queue_put(t, rid, q).len()) == granted_upto(t, t.len())
            + granted_in(q) - granted_in(queue_of(t, rid)),
{
    lemma_row_at(t, rid, 0);
    let u = queue_put(t, rid, q);
    match row_at(t, rid, 0) {
        Some(i) => {
            lemma_upto_same(t, u, t.len(), i);
        },
        None => {
            lemma_upto_same(t, u, t.len(), -1);
            lemma_granted_step(Seq::empty());
            assert(u[t.len() as int] == (rid, q));
        },
    }
}

/// A lock is counted once: the count grows by one where a transaction that held nothing on the row is
/// granted a lock on it, and by nothing else that it asks for.
pub proof fn law_locks_are_counted(v: LockView, txn_id: u32, rid: Rid, mode: LockMode)
    requires
        locks_ok(v),
    ensures
        granted_upto(
            lock_acquire(v, txn_id, rid, mode).0.table,
            lock_acquire(v, txn_id, rid, mode).0.table.len(),
        ) == granted_upto(v.table, v.table.len()) + if way_is_free(v, txn_id, rid, mode)
            && !lock_held(v, txn_id, rid, LockMode::Shared) {
            1int
        } else {
            0
        },
{
    law_lock_is_granted(v, txn_id, rid, mode);
    lemma_held(v, txn_id, rid);
    let q = queue_of(v.table, rid);
    let granted = grantable(q, txn_id, mode);
    let longer = q.push(LockRequest { txn_id, mode, granted });
    lemma_put_counts(v.table, rid, q);
    lemma_put_counts(v.table, rid, upgraded(q, txn_id));
    lemma_granted_alike(q, upgraded(q, txn_id));
    lemma_put_counts(v.table, rid, longer);
    lemma_granted_step(longer);
    assert(longer.drop_last() =~= q);
    lemma_put_counts(v.table, rid, without_waiting(longer, txn_id));
    lemma_granted_filter(longer, |r: LockRequest| r.txn_id != txn_id || r.granted);
    if holds_exclusive(q, txn_id) {
        let h = choose|h: int|
            0 <= h < q.len() && (#[trigger] q[h]).granted && q[h].txn_id == txn_id && q[h].mode
                == LockMode::Exclusive;
        assert(q[h].granted);
    }
}

/// Nothing is counted exactly where nothing is granted.
pub proof fn law_no_lock_is_counted(t: Seq<(Rid, Seq<LockRequest>)>, n: nat)
    requires
        n <= t.len(),
    ensures
        granted_upto(t, n) == 0 <==> forall|k: int, i: int|
            0 <= k < n && 0 <= i < t[k].1.len() ==> !(#[trigger] t[k].1[i]).granted,
    decreases n,
{
    if n > 0 {
        law_no_lock_is_counted(t, (n - 1) as nat);
        let q = t[n - 1].1;
        lemma_count_zero(q, LockMode::Shared);
        lemma_count_zero(q, LockMode::Exclusive);
        if granted_upto(t, n) == 0 {
            assert forall|k: int, i: int| 0 <= k < n && 0 <= i < t[k].1.len() implies !(
            #[trigger] t[k].1[i]).granted by {
                if k == n - 1 {
                    assert(q[i].mode == LockMode::Shared || q[i].mode == LockMode::Exclusive);
                }
            }
        }
        if forall|k: int, i: int|
            0 <= k < n && 0 <= i < t[k].1.len() ==> !(#[trigger] t[k].1[i]).granted {
            assert forall|i: int| 0 <= i < q.len() implies !(#[trigger] q[i]).granted by {
                assert(!t[n - 1].1[i].granted);
            }
        }
    }
}

proof fn lemma_woken_stays(q: Seq<LockRequest>, k: int, n: nat, m: nat)
    requires
        n <= m <= q.len(),
        0 <= k < q.len(),
        woken(q, n)[k].granted,
    ensures
        woken(q, m)[k].granted,
    decreases m - n,
{
    if n < m {
        lemma_woken_rest(q, (m - 1) as nat);
        lemma_woken_stays(q, k, n, (m - 1) as nat);
    }
}

/// Where a release leaves nobody with a lock on the row, the one that has waited for the longest time
/// gets it: the first of the requests that are left is granted.
pub proof fn law_first_in_line_is_served(q: Seq<LockRequest>, txn_id: u32)
    requires
        forall|i: int| 0 <= i < q.len() && (#[trigger] q[i]).granted ==> q[i].txn_id == txn_id,
        exists|i: int| 0 <= i < q.len() && (#[trigger] q[i]).txn_id != txn_id,
    ensures
        released(q, txn_id).len() > 0,
        released(q, txn_id)[0].granted,
        exists|i: int|
            0 <= i < q.len() && (#[trigger] q[i]).txn_id == released(q, txn_id)[0].txn_id && q[i].mode
                == released(q, txn_id)[0].mode && forall|j: int|
                0 <= j < i ==> (#[trigger] q[j]).txn_id == txn_id,
{
    let p = |r: LockRequest| r.txn_id != txn_id;
    let rest = without_txn(q, txn_id);
    lemma_filter_members(q, p);
    let first = lemma_first_kept(q, txn_id);
    lemma_count_zero(rest, LockMode::Shared);
    lemma_count_zero(rest, LockMode::Exclusive);
    assert forall|i: int| 0 <= i < rest.len() implies !(#[trigger] rest[i]).granted by {
        assert(rest.contains(rest[i]));
        assert(q.filter(p).contains(rest[i]));
        let k = choose|k: int| 0 <= k < q.len() && q[k] == rest[i];
        assert(q[k].txn_id != txn_id);
    }
    reveal_with_fuel(woken, 2);
    assert(woken(rest, 1)[0].granted);
    lemma_woken_stays(rest, 0, 1, rest.len());
    lemma_woken_rest(rest, rest.len());
    assert(q[first].txn_id == released(q, txn_id)[0].txn_id);
}

/// The first request that is left is the first of another transaction.
proof fn lemma_first_kept(q: Seq<LockRequest>, txn_id: u32) -> (i: int)
    requires
        exists|i: int| 0 <= i < q.len() && (#[trigger] q[i]).txn_id != txn_id,
    ensures
        0 <= i < q.len(),
        q[i].txn_id != txn_id,
        forall|j: int| 0 <= j < i ==> (#[trigger] q[j]).txn_id == txn_id,
        without_txn(q, txn_id).len() > 0,
        without_txn(q, txn_id)[0] == q[i],
    decreases q.len(),
{
    let p = |r: LockRequest| r.txn_id != txn_id;
    reveal(Seq::filter);
    let dl = q.drop_last();
    if exists|i: int| 0 <= i < dl.len() && (#[trigger] dl[i]).txn_id != txn_id {
        let i = lemma_first_kept(dl, txn_id);
        assert(dl[i] == q[i]);
        assert forall|j: int| 0 <= j < i implies (#[trigger] q[j]).txn_id == txn_id by {
            assert(dl[j].txn_id == txn_id);
        }
        i
    } else {
        let n = q.len() - 1;
        assert forall|j: int| 0 <= j < n implies (#[trigger] q[j]).txn_id == txn_id by {
            assert(dl[j].txn_id == txn_id);
        }
        assert(dl.filter(p).len() == 0) by {
            lemma_filter_members(dl, p);
            if dl.filter(p).len() > 0 {
                let x = dl.filter(p)[0];
                assert(dl.filter(p).contains(x));
                let k = choose|k: int| 0 <= k < dl.len() && dl[k] == x;
                assert(dl[k].txn_id != txn_id);
            }
        }
        assert(q[n].txn_id != txn_id);
        n
    }
}

} // verus!
