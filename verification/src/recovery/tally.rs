//! What recovery counts as redone and as undone.
use crate::recovery::log_record::LogView;
use crate::recovery::wal::{
    aborted, committed, incomplete, is_redone, is_undone, makes_page, page_there, redone_upto,
    started, undone_from, wal_abort, wal_begin, wal_commit, WalView,
};
use vstd::prelude::*;

verus! {

/// The transaction and the page of a record that inserts, deletes or updates a tuple.
pub open spec fn change(r: LogView) -> Option<(u32, u32)> {
    match r {
        LogView::Insert { txn_id, page_id, .. } => Some((txn_id, page_id)),
        LogView::Delete { txn_id, page_id, .. } => Some((txn_id, page_id)),
        LogView::Update { txn_id, page_id, .. } => Some((txn_id, page_id)),
        _ => None,
    }
}

/// Page `id` is there by record `n`: it was there, or a committed transaction inserted or updated a
/// tuple on it before.
pub open spec fn page_made(records: Seq<LogView>, had: Set<u32>, id: u32, n: int) -> bool {
    had.contains(id) || exists|j: int|
        0 <= j < n && !(records[j] is Delete) && ((#[trigger] change(records[j])) matches Some(
            (txn, page),
        ) && page == id && committed(records, txn))
}

/// Committed transactions delete only from pages that are there by then.
pub open spec fn deletions_find_their_pages(records: Seq<LogView>, had: Set<u32>) -> bool {
    forall|i: int|
        0 <= i < records.len() && (#[trigger] records[i]) is Delete ==> (change(
            records[i],
        ) matches Some((txn, page)) && (committed(records, txn) ==> page_made(
            records,
            had,
            page,
            i,
        )))
}

/// Unfinished transactions insert only into pages that are there in the end.
pub open spec fn insertions_find_their_pages(records: Seq<LogView>, had: Set<u32>) -> bool {
    forall|i: int|
        0 <= i < records.len() && (#[trigger] records[i]) is Insert ==> (change(
            records[i],
        ) matches Some((txn, page)) && (incomplete(records, txn) ==> page_made(
            records,
            had,
            page,
            records.len() as int,
        )))
}

proof fn lemma_made(records: Seq<LogView>, had: Set<u32>, id: u32, n: int)
    requires
        page_made(records, had, id, n),
    ensures
        page_there(records, had, id, n),
{
    if !had.contains(id) {
        let j = choose|j: int|
            0 <= j < n && !(records[j] is Delete) && ((#[trigger] change(records[j])) matches Some(
                (txn, page),
            ) && page == id && committed(records, txn));
        assert(makes_page(records[j], id));
    }
}

/// A change of a transaction that committed.
pub open spec fn committed_change(records: Seq<LogView>) -> spec_fn(LogView) -> bool {
    |r: LogView| change(r) matches Some((txn, _)) && committed(records, txn)
}

/// An insertion or a deletion of a transaction that started and did not end.
pub open spec fn unfinished_change(records: Seq<LogView>) -> spec_fn(LogView) -> bool {
    |r: LogView|
        change(r) matches Some((txn, _)) && !(r is Update) && started(records, txn) && !committed(
            records,
            txn,
        ) && !aborted(records, txn)
}

/// Every change of a committed transaction counts as redone, once, and nothing else does, where
/// deletions find their pages.
pub proof fn law_committed_changes_are_redone(records: Seq<LogView>, had: Set<u32>, n: nat)
    requires
        n <= records.len(),
        deletions_find_their_pages(records, had),
    ensures
        redone_upto(records, had, n) == records.take(n as int).filter(
            committed_change(records),
        ).len(),
    decreases n,
{
    let p = committed_change(records);
    reveal(Seq::filter);
    if n == 0 {
        assert(records.take(0).filter(p).len() == 0);
    } else {
        law_committed_changes_are_redone(records, had, (n - 1) as nat);
        let s = records.take(n as int);
        assert(s.drop_last() =~= records.take(n - 1));
        assert(s.last() == records[n - 1]);
        let c = change(records[n - 1]);
        assert(is_redone(records, had, n - 1) == p(records[n - 1])) by {
            if let Some((txn, page)) = c {
                if records[n - 1] is Delete && committed(records, txn) {
                    lemma_made(records, had, page, n - 1);
                }
            }
        }
    }
}

/// Every insertion and every deletion of an unfinished transaction counts as undone, once, and nothing
/// else does, where insertions find their pages.
pub proof fn law_unfinished_changes_are_undone(records: Seq<LogView>, had: Set<u32>, i: int)
    requires
        0 <= i <= records.len(),
        insertions_find_their_pages(records, had),
    ensures
        undone_from(records, had, i) == records.skip(i).filter(unfinished_change(records)).len(),
    decreases records.len() - i,
{
    let p = unfinished_change(records);
    if i == records.len() {
        reveal(Seq::filter);
        assert(records.skip(i).len() == 0);
    } else {
        law_unfinished_changes_are_undone(records, had, i + 1);
        let s = records.skip(i);
        let r = records[i];
        assert(s =~= seq![r] + records.skip(i + 1));
        lemma_filter_first(r, records.skip(i + 1), p);
        let c = change(r);
        assert(is_undone(records, had, i) == p(r)) by {
            if let Some((txn, page)) = c {
                if r is Insert && incomplete(records, txn) {
                    lemma_made(records, had, page, records.len() as int);
                }
            }
        }
    }
}

proof fn lemma_filter_first(r: LogView, s: Seq<LogView>, p: spec_fn(LogView) -> bool)
    ensures
        (seq![r] + s).filter(p).len() == s.filter(p).len() + if p(r) {
            1nat
        } else {
            0
        },
    decreases s.len(),
{
    reveal(Seq::filter);
    let t = seq![r] + s;
    if s.len() == 0 {
        assert(t =~= seq![r]);
        assert(t.drop_last().len() == 0);
        assert(t.drop_last().filter(p).len() == 0);
        assert(t.last() == r);
    } else {
        lemma_filter_first(r, s.drop_last(), p);
        assert(t.drop_last() =~= seq![r] + s.drop_last());
        assert(t.last() == s.last());
    }
}

/// A transaction has committed exactly if a commit record of it is in the log, whatever else is; and
/// so for its start and for its abort.
pub proof fn law_one_record_tells(records: Seq<LogView>, r: LogView, id: u32)
    ensures
        !committed(Seq::empty(), id) && !aborted(Seq::empty(), id) && !started(Seq::empty(), id),
        committed(records.push(r), id) <==> committed(records, id) || (r matches LogView::Commit {
            txn_id,
            ..
        } && txn_id == id),
        aborted(records.push(r), id) <==> aborted(records, id) || (r matches LogView::Abort {
            txn_id,
            ..
        } && txn_id == id),
        started(records.push(r), id) <==> started(records, id) || (r matches LogView::Begin {
            txn_id,
            ..
        } && txn_id == id),
        incomplete(records, id) <==> started(records, id) && !committed(records, id) && !aborted(
            records,
            id,
        ),
{
    let more = records.push(r);
    let n = records.len() as int;
    assert(more[n] == r);
    assert forall|i: int| 0 <= i < n implies #[trigger] more[i] == records[i] by {}
    if committed(records, id) {
        let i = choose|i: int|
            0 <= i < records.len() && (#[trigger] records[i] matches LogView::Commit { txn_id, .. }
                && txn_id == id);
        assert(more[i] == records[i]);
    }
    if aborted(records, id) {
        let i = choose|i: int|
            0 <= i < records.len() && (#[trigger] records[i] matches LogView::Abort { txn_id, .. }
                && txn_id == id);
        assert(more[i] == records[i]);
    }
    if started(records, id) {
        let i = choose|i: int|
            0 <= i < records.len() && (#[trigger] records[i] matches LogView::Begin { txn_id, .. }
                && txn_id == id);
        assert(more[i] == records[i]);
    }
    if committed(more, id) {
        let i = choose|i: int|
            0 <= i < more.len() && (#[trigger] more[i] matches LogView::Commit { txn_id, .. }
                && txn_id == id);
        if i < n {
            assert(records[i] == more[i]);
        }
    }
    if aborted(more, id) {
        let i = choose|i: int|
            0 <= i < more.len() && (#[trigger] more[i] matches LogView::Abort { txn_id, .. }
                && txn_id == id);
        if i < n {
            assert(records[i] == more[i]);
        }
    }
    if started(more, id) {
        let i = choose|i: int|
            0 <= i < more.len() && (#[trigger] more[i] matches LogView::Begin { txn_id, .. }
                && txn_id == id);
        if i < n {
            assert(records[i] == more[i]);
        }
    }
}

/// A transaction that begins is active; one that commits or aborts is not any more; the others stay as
/// they were.
pub proof fn law_who_is_active(w: WalView, id: u32, other: u32)
    ensures
        wal_begin(w).active.contains(w.next_txn),
        other != w.next_txn ==> wal_begin(w).active.contains(other) == w.active.contains(other),
        !wal_commit(w, id).active.contains(id),
        !wal_abort(w, id).active.contains(id),
        other != id ==> wal_commit(w, id).active.contains(other) == w.active.contains(other),
        other != id ==> wal_abort(w, id).active.contains(other) == w.active.contains(other),
{
}

} // verus!
