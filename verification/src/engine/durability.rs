//! What survives a restart: statements that were committed are recovered from the files.
use crate::bytes::{holds_at, le32, lemma_un32, un32};
use crate::engine::catalog::{
    deserialized, lemma_position, len32, position, serialized, table_names, CatalogView,
};
use crate::engine::changes::{
    all_rows, law_failed_sweep_changes_nothing, law_tables_stay_in_order, lemma_pages,
    lemma_same_heap, lemma_slots, lemma_survey_pages, lemma_survey_slots, page_sweepable, sweepable,
    swept_over, updated_row,
};
use crate::engine::contents::{
    heap_ok, insert_rid, law_select_reads_table, lemma_cells_same, lemma_good_list, lemma_heap_page,
    lemma_insert_outcome, lemma_list, lemma_listed, page_good, table_cells,
};
use crate::engine::executor::{lists_on_file, opened, Executor};
use crate::engine::keys::work_db;
use crate::engine::model::{
    catalog_in, change_of, create_table, db_wf, entry_names, execute, file_names, files_put, insert,
    meta_bytes, meta_in, meta_of, metas_in, place_for, recovered_with, survey_pages, sweep,
    sweep_of, sweep_pages, sweep_slot, sweep_slots, table_pages, tables_put, Change, DbView, Place,
    RowView, Sweep, TableView, Work,
};
use crate::engine::tables::{lemma_position_push, lemma_tables_put};
use crate::index::node::{ids_bytes, lemma_ids_at, lemma_ids_len};
use crate::recovery::log_record::{lemma_record_len, LogView};
use crate::recovery::wal::{
    belongs, committed, committed_set, fresh_txn, in_step, law_append_reads_back,
    law_delete_stays_in_step, law_empty_log, law_insert_stays_in_step, law_marks_stay_in_step,
    law_torn_record_is_dropped, law_txn_ids_after_reopen, law_update_stays_in_step, lemma_outcome,
    lemma_redo_agrees, log_records, on_tuple, page_or_blank, page_try_put, recovered, redo_in,
    redo_one, redo_step, wal_abort, wal_append, wal_begin, wal_commit, wal_insert, wal_old_data,
    whole, whole_part, WalView,
};
use crate::sql::ast::{AssignmentView, ColumnView, ExprView, SelectView, StatementView};
use crate::storage::catalog_store::{law_catalog_round_trip, saveable};
use crate::storage::error::StorageError;
use crate::storage::page::{
    law_blank, law_body_delete, law_body_insert, law_body_reads, law_body_update, page_blank,
    page_body, page_count, page_fits, page_get, page_live, slot_at, slot_of, PAGE_SIZE,
};
use vstd::prelude::*;

verus! {

/// The pages that the log makes if the transactions in `done` commit.
pub open spec fn replayed(log: Seq<u8>, done: Set<u32>) -> Map<u32, Seq<u8>> {
    redo_in(log_records(log), done, log_records(log).len())
}

/// All pages have the size of a page.
pub open spec fn all_sized(pages: Map<u32, Seq<u8>>) -> bool {
    forall|id: u32| #[trigger] pages.contains_key(id) ==> pages[id].len() == PAGE_SIZE
}

/// Some table has page `id`.
pub open spec fn listed(tables: Seq<TableView>, id: u32) -> bool {
    exists|i: int, k: int|
        0 <= i < tables.len() && 0 <= k < tables[i].pages.len() && #[trigger] tables[i].pages[k]
            == id
}

/// The pages of the tables are those that the log makes if the transactions in `done` commit, and
/// the log makes no others.
pub open spec fn mirrored(db: DbView, done: Set<u32>) -> bool {
    let made = replayed(db.wal.log, done);
    &&& whole(db.wal.log)
    &&& all_sized(db.wal.pages)
    &&& forall|id: u32| #[trigger] made.contains_key(id) ==> listed(db.tables, id)
    &&& forall|i: int, k: int|
        0 <= i < db.tables.len() && 0 <= k < db.tables[i].pages.len() ==> db.pages[
        #[trigger] db.tables[i].pages[k]] == Ok::<Seq<u8>, StorageError>(
            page_body(page_or_blank(made, db.tables[i].pages[k])),
        )
}

// Replaying.

/// Appending a record to a log makes of its pages what replaying the record, or leaving it out, makes
/// of them.
proof fn lemma_append(w: WalView, r: LogView, done: Set<u32>)
    requires
        whole(w.log),
        r.encodable(),
    ensures
        whole(wal_append(w, r).log),
        log_records(wal_append(w, r).log) == log_records(w.log).push(r.numbered(w.lsn)),
        replayed(wal_append(w, r).log, done) == redo_step(
            replayed(w.log, done),
            r,
            done,
        ),
{
    lemma_record_len(r);
    lemma_record_len(r.numbered(w.lsn));
    law_append_reads_back(w.log, r.numbered(w.lsn));
    let a = log_records(w.log);
    let b = a.push(r.numbered(w.lsn));
    lemma_redo_agrees(a, b, done, done, a.len());
}

proof fn lemma_replay_sized(records: Seq<LogView>, done: Set<u32>, n: nat)
    requires
        n <= records.len(),
    ensures
        all_sized(redo_in(records, done, n)),
    decreases n,
{
    if n > 0 {
        lemma_replay_sized(records, done, (n - 1) as nat);
        match records[n - 1] {
            LogView::Insert { page_id, .. } => law_blank(page_id),
            LogView::Update { page_id, .. } => law_blank(page_id),
            _ => {},
        }
    }
}

/// `now` goes on from `base` with records of transaction `txn`.
pub open spec fn goes_on(base: Seq<LogView>, now: Seq<LogView>, txn: u32) -> bool {
    &&& base.len() <= now.len()
    &&& forall|i: int| 0 <= i < base.len() ==> #[trigger] now[i] == base[i]
    &&& forall|i: int| base.len() <= i < now.len() ==> (#[trigger] now[i]).txn() == Some(txn)
}

/// A page changes as the record that is appended to the log says.
proof fn lemma_mirror_step(
    x: DbView,
    y: DbView,
    r: LogView,
    id: u32,
    e: Seq<u8>,
    done: Set<u32>,
)
    requires
        mirrored(x, done),
        belongs(r, done),
        r.encodable(),
        y.wal.log == wal_append(x.wal, r).log,
        all_sized(y.wal.pages),
        y.tables == x.tables,
        y.num_pages == x.num_pages,
        y.pages == x.pages.insert(id, Ok(e)),
        listed(x.tables, id),
        ({
            let made = replayed(x.wal.log, done);
            let now = redo_one(made, r);
            &&& page_body(page_or_blank(now, id)) == e
            &&& now == made || now == made.insert(id, now[id])
        }),
    ensures
        mirrored(y, done),
        log_records(y.wal.log) == log_records(x.wal.log).push(r.numbered(x.wal.lsn)),
{
    lemma_append(x.wal, r, done);
    let made = replayed(x.wal.log, done);
    let now = replayed(y.wal.log, done);
    assert forall|i: int, k: int|
        0 <= i < y.tables.len() && 0 <= k < y.tables[i].pages.len() implies y.pages[
    #[trigger] y.tables[i].pages[k]] == Ok::<Seq<u8>, StorageError>(
        page_body(page_or_blank(now, y.tables[i].pages[k])),
    ) by {
        let o = y.tables[i].pages[k];
        assert(x.pages[x.tables[i].pages[k]] == Ok::<Seq<u8>, StorageError>(
            page_body(page_or_blank(made, o)),
        ));
    }
}

/// A record that is on no tuple leaves the pages as they are.
proof fn lemma_mirror_mark(x: DbView, y: DbView, r: LogView, done: Set<u32>)
    requires
        mirrored(x, done),
        !on_tuple(r),
        r.encodable(),
        y.wal.log == wal_append(x.wal, r).log,
        all_sized(y.wal.pages),
        y.tables == x.tables,
        y.num_pages >= x.num_pages,
        y.pages == x.pages,
    ensures
        mirrored(y, done),
        log_records(y.wal.log) == log_records(x.wal.log).push(r.numbered(x.wal.lsn)),
{
    lemma_append(x.wal, r, done);
    assert(replayed(y.wal.log, done) == replayed(x.wal.log, done));
    let made = replayed(x.wal.log, done);
    assert forall|i: int, k: int|
        0 <= i < y.tables.len() && 0 <= k < y.tables[i].pages.len() implies y.pages[
    #[trigger] y.tables[i].pages[k]] == Ok::<Seq<u8>, StorageError>(
        page_body(page_or_blank(made, y.tables[i].pages[k])),
    ) by {
        assert(x.pages[x.tables[i].pages[k]] == x.pages[y.tables[i].pages[k]]);
    }
}

/// A page that reads like another has its size.
proof fn lemma_body_sized(p: Seq<u8>, d: Seq<u8>)
    requires
        page_body(p) == d,
        d.len() == PAGE_SIZE,
    ensures
        p.len() == PAGE_SIZE,
        page_body(d) == d,
{
    assert(page_body(p).len() == p.len());
    assert(page_body(d) =~= d);
}

/// Page `id` of a table, as the log makes it.
pub proof fn lemma_listed_page(db: DbView, table: Seq<char>, id: u32, done: Set<u32>)
    requires
        heap_ok(db),
        mirrored(db, done),
        table_pages(db.tables, table) is Some,
        (table_pages(db.tables, table)->0).contains(id),
    ensures
        page_good(db, id),
        ({
            let p = page_or_blank(replayed(db.wal.log, done), id);
            &&& listed(db.tables, id)
            &&& p.len() == PAGE_SIZE
            &&& page_body(p) == db.pages[id]->Ok_0
            &&& page_body(db.pages[id]->Ok_0) == db.pages[id]->Ok_0
        }),
{
    let i = lemma_list(db.tables, table);
    let ids = db.tables[i].pages;
    let k = choose|k: int| 0 <= k < ids.len() && ids[k] == id;
    assert(page_good(db, db.tables[i].pages[k]));
    assert(db.pages[db.tables[i].pages[k]] == Ok::<Seq<u8>, StorageError>(
        page_body(page_or_blank(replayed(db.wal.log, done), id)),
    ));
    lemma_body_sized(page_or_blank(replayed(db.wal.log, done), id), db.pages[id]->Ok_0);
}

/// Sweeping a slot does to a page what the log says.
proof fn lemma_mirror_slot(
    db: DbView,
    s: Sweep,
    id: u32,
    w: Work,
    slot: u16,
    done: Set<u32>,
)
    requires
        heap_ok(work_db(db, id, w)),
        mirrored(work_db(db, id, w), done),
        done.contains(s.txn),
        table_pages(db.tables, s.table) is Some,
        (table_pages(db.tables, s.table)->0).contains(id),
        page_get(w.page, slot as int) matches Some(t) ==> sweepable(s, t),
    ensures
        mirrored(work_db(db, id, sweep_slot(w, s, id, slot)), done),
        goes_on(log_records(w.wal.log), log_records(sweep_slot(w, s, id, slot).wal.log), s.txn),
{
    let x = work_db(db, id, w);
    let v = sweep_slot(w, s, id, slot);
    let y = work_db(db, id, v);
    lemma_listed_page(x, s.table, id, done);
    let made = replayed(w.wal.log, done);
    let p = page_or_blank(made, id);
    assert(x.pages[id]->Ok_0 == w.page);
    assert(y.pages =~= x.pages.insert(id, Ok(v.page)));
    if let Some(t) = page_get(w.page, slot as int) {
        let row = deserialized(s.schema.columns, t)->Ok_0;
        assert(page_body(w.page) == w.page);
        law_body_reads(p, w.page);
        assert(page_live(p, slot as int) == page_live(w.page, slot as int));
        assert(page_get(p, slot as int) == page_get(w.page, slot as int));
        assert(t.len() <= PAGE_SIZE);
        assert(made.contains_key(id)) by {
            law_blank(id);
        }
        if swept_over(s, t) {
            if s.set is None {
                let old_data = wal_old_data(w.wal, id, slot);
                lemma_saved_short(w.wal, id, slot);
                let r = LogView::Delete { lsn: 0, txn_id: s.txn, page_id: id, slot_id: slot, old_data };
                lemma_record_len(r);
                law_body_delete(p, w.page, slot as int);
                let now = redo_one(made, r);
                assert(now == made.insert(id, now[id]));
                lemma_mirror_step(x, y, r, id, v.page, done);
            } else {
                let u = serialized(s.schema.columns, updated_row(s, t))->Ok_0;
                let r = LogView::Update {
                    lsn: 0,
                    txn_id: s.txn,
                    page_id: id,
                    slot_id: slot,
                    old_data: t,
                    new_data: u,
                };
                lemma_record_len(r);
                law_body_update(p, w.page, slot as int, u);
                let now = redo_one(made, r);
                assert(now == made.insert(id, now[id]));
                lemma_mirror_step(x, y, r, id, v.page, done);
            }
        }
    }
}

/// The tuple that a logged deletion saves is short.
pub proof fn lemma_saved_short(w: WalView, id: u32, slot: u16)
    requires
        all_sized(w.pages),
    ensures
        wal_old_data(w, id, slot).len() <= PAGE_SIZE,
{
    if w.pages.contains_key(id) {
        let d = w.pages[id];
        if let Some(t) = page_get(d, slot as int) {
            let s = slot_of(d, slot_at(slot as int));
            assert(t.len() == s.length);
        }
    }
}

proof fn lemma_goes_on(a: Seq<LogView>, b: Seq<LogView>, c: Seq<LogView>, txn: u32)
    requires
        goes_on(a, b, txn),
        goes_on(b, c, txn),
    ensures
        goes_on(a, c, txn),
{
    assert forall|i: int| 0 <= i < a.len() implies #[trigger] c[i] == a[i] by {
        assert(c[i] == b[i]);
    }
    assert forall|i: int| a.len() <= i < c.len() implies (#[trigger] c[i]).txn() == Some(txn) by {
        if i < b.len() {
            assert(c[i] == b[i]);
        }
    }
}

proof fn lemma_mirror_slots(
    db: DbView,
    s: Sweep,
    id: u32,
    w: Work,
    n: nat,
    done: Set<u32>,
)
    requires
        heap_ok(work_db(db, id, w)),
        mirrored(work_db(db, id, w), done),
        done.contains(s.txn),
        table_pages(db.tables, s.table) is Some,
        (table_pages(db.tables, s.table)->0).contains(id),
        n <= page_count(w.page),
        page_sweepable(s, w.page, n),
    ensures
        mirrored(work_db(db, id, sweep_slots(w, s, id, n)), done),
        goes_on(log_records(w.wal.log), log_records(sweep_slots(w, s, id, n).wal.log), s.txn),
    decreases n,
{
    if n > 0 {
        let x = work_db(db, id, w);
        lemma_listed_page(x, s.table, id, done);
        assert(x.pages[id]->Ok_0 == w.page);
        lemma_mirror_slots(db, s, id, w, (n - 1) as nat, done);
        lemma_slots(w, s, id, (n - 1) as nat);
        let v = sweep_slots(w, s, id, (n - 1) as nat);
        let y = work_db(db, id, v);
        assert(y.pages =~= x.pages.insert(id, Ok(v.page)));
        lemma_heap_page(x, y, id, v.page);
        assert(page_get(v.page, n - 1) == page_get(w.page, n - 1));
        lemma_mirror_slot(db, s, id, v, (n - 1) as u16, done);
        lemma_goes_on(
            log_records(w.wal.log),
            log_records(v.wal.log),
            log_records(sweep_slots(w, s, id, n).wal.log),
            s.txn,
        );
    }
}

proof fn lemma_mirror_pages(db: DbView, s: Sweep, ids: Seq<u32>, n: nat, done: Set<u32>)
    requires
        heap_ok(db),
        mirrored(db, done),
        done.contains(s.txn),
        n <= ids.len(),
        table_pages(db.tables, s.table) == Some(ids),
        survey_pages(db.pages, s, ids, ids.len()) is Ok,
    ensures
        mirrored(sweep_pages(db, s, ids, n), done),
        goes_on(log_records(db.wal.log), log_records(sweep_pages(db, s, ids, n).wal.log), s.txn),
    decreases n,
{
    if n > 0 {
        lemma_good_list(db, s.table);
        lemma_mirror_pages(db, s, ids, (n - 1) as nat, done);
        lemma_pages(db, s, ids, (n - 1) as nat);
        let v = sweep_pages(db, s, ids, (n - 1) as nat);
        let id = ids[n - 1];
        assert(page_good(v, id));
        assert(v.pages[id] == db.pages[id]) by {
            let earlier = ids.take(n - 1);
            if earlier.contains(id) {
                let j = choose|j: int| 0 <= j < earlier.len() && earlier[j] == id;
                assert(ids[j] == ids[n - 1]);
            }
        }
        let d = v.pages[id]->Ok_0;
        lemma_survey_pages(db.pages, s, ids, (n - 1) as nat, ids.len());
        lemma_survey_slots(
            s,
            survey_pages(db.pages, s, ids, (n - 1) as nat)->Ok_0,
            d,
            page_count(d) as nat,
        );
        let w = Work { page: d, wal: v.wal, indexes: v.indexes };
        let x = work_db(v, id, w);
        assert(x.pages =~= v.pages);
        assert(x == v);
        assert(ids.contains(id));
        lemma_mirror_slots(v, s, id, w, page_count(d) as nat, done);
        let w2 = sweep_slots(w, s, id, page_count(d) as nat);
        assert(sweep_pages(db, s, ids, n) == work_db(v, id, w2));
        lemma_goes_on(
            log_records(db.wal.log),
            log_records(v.wal.log),
            log_records(w2.wal.log),
            s.txn,
        );
    }
}

/// The pages of the tables are those that recovery makes of the log, and the next transaction id is
/// new to the log.
pub open spec fn logged(db: DbView) -> bool {
    &&& mirrored(db, committed_set(log_records(db.wal.log)))
    &&& fresh_txn(db.wal)
}

/// The transactions that commit if the next one does.
spec fn with_next(db: DbView) -> Set<u32> {
    committed_set(log_records(db.wal.log)).insert(db.wal.next_txn)
}

/// The log after a transaction began.
proof fn lemma_begun(db: DbView)
    requires
        logged(db),
        db.wal.next_txn < u32::MAX,
    ensures
        mirrored(DbView { wal: wal_begin(db.wal), ..db }, with_next(db)),
        goes_on(log_records(db.wal.log), log_records(wal_begin(db.wal).log), db.wal.next_txn),
        logged(DbView { wal: wal_begin(db.wal), ..db }),
{
    let records = log_records(db.wal.log);
    let done = committed_set(records);
    let both = with_next(db);
    let begun = DbView { wal: wal_begin(db.wal), ..db };
    assert forall|i: int| 0 <= i < records.len() implies ((#[trigger] records[i]).txn() matches Some(
        id,
    ) ==> done.contains(id) == both.contains(id)) by {}
    lemma_redo_agrees(records, records, done, both, records.len());
    assert(mirrored(db, both)) by {
        assert(replayed(db.wal.log, both) == replayed(db.wal.log, done));
        lemma_mirrored_alike(db, done, both);
    }
    let r = LogView::Begin { lsn: 0, txn_id: db.wal.next_txn };
    lemma_record_len(r);
    lemma_mirror_mark(db, begun, r, both);
    lemma_mirror_mark(db, begun, r, done);
    lemma_mark_outcome(records, r.numbered(db.wal.lsn));
    assert forall|i: int| 0 <= i < log_records(begun.wal.log).len() implies ((
    #[trigger] log_records(begun.wal.log)[i]).txn() matches Some(id) ==> id
        < begun.wal.next_txn) by {
        if i < records.len() {
            assert(log_records(begun.wal.log)[i] == records[i]);
        }
    }
}

proof fn lemma_mirrored_alike(db: DbView, d: Set<u32>, e: Set<u32>)
    requires
        mirrored(db, d),
        replayed(db.wal.log, d) == replayed(db.wal.log, e),
    ensures
        mirrored(db, e),
{
    let made = replayed(db.wal.log, d);
    assert forall|i: int, k: int|
        0 <= i < db.tables.len() && 0 <= k < db.tables[i].pages.len() implies db.pages[
    #[trigger] db.tables[i].pages[k]] == Ok::<Seq<u8>, StorageError>(
        page_body(page_or_blank(made, db.tables[i].pages[k])),
    ) by {}
}

/// A record that is no commit commits nothing.
proof fn lemma_mark_outcome(records: Seq<LogView>, r: LogView)
    requires
        !(r is Commit),
    ensures
        committed_set(records.push(r)) == committed_set(records),
{
    let now = records.push(r);
    assert forall|id: u32| committed(now, id) == #[trigger] committed(records, id) by {
        if committed(records, id) {
            let i = choose|i: int|
                0 <= i < records.len() && (#[trigger] records[i] matches LogView::Commit {
                    txn_id,
                    ..
                } && txn_id == id);
            assert(now[i] == records[i]);
        }
        if committed(now, id) {
            let i = choose|i: int|
                0 <= i < now.len() && (#[trigger] now[i] matches LogView::Commit { txn_id, .. }
                    && txn_id == id);
            assert(now[i] == records[i]);
        }
    }
    assert(committed_set(now) =~= committed_set(records));
}

/// The log after a transaction that began as the next one committed.
proof fn lemma_ended(start: DbView, db: DbView)
    requires
        logged(start),
        mirrored(db, with_next(start)),
        goes_on(log_records(start.wal.log), log_records(db.wal.log), start.wal.next_txn),
        db.wal.next_txn == start.wal.next_txn + 1,
    ensures
        logged(DbView { wal: wal_commit(db.wal, start.wal.next_txn), ..db }),
{
    let base = log_records(start.wal.log);
    let txn = start.wal.next_txn;
    let r = LogView::Commit { lsn: 0, txn_id: txn };
    let after = DbView { wal: wal_commit(db.wal, txn), ..db };
    lemma_record_len(r);
    lemma_mirror_mark(db, after, r, with_next(start));
    let now = log_records(after.wal.log);
    assert(now == log_records(db.wal.log).push(r.numbered(db.wal.lsn)));
    let tail = now.skip(base.len() as int);
    assert forall|i: int| 0 <= i < tail.len() implies (#[trigger] tail[i]).txn() == Some(txn) by {
        if i < tail.len() - 1 {
            assert(now[base.len() + i] == log_records(db.wal.log)[base.len() + i]);
        }
    }
    assert(now =~= base + tail) by {
        assert forall|i: int| 0 <= i < base.len() implies #[trigger] now[i] == base[i] by {
            assert(now[i] == log_records(db.wal.log)[i]);
        }
    }
    assert(committed(now, txn)) by {
        assert(now[now.len() - 1] is Commit);
    }
    assert forall|id: u32| committed(now, id) == (committed(base, id) || id == txn) by {
        lemma_outcome(base, tail, txn, id);
    }
    assert(committed_set(now) =~= with_next(start));
    assert forall|i: int| 0 <= i < now.len() implies ((#[trigger] now[i]).txn() matches Some(id)
        ==> id < after.wal.next_txn) by {
        if i < base.len() {
            assert(now[i] == base[i]);
        } else {
            assert(now[i] == tail[i - base.len()]);
        }
    }
}

/// The log after a transaction that changed nothing was aborted.
proof fn lemma_aborted(db: DbView, txn: u32)
    requires
        logged(db),
        txn < db.wal.next_txn,
    ensures
        logged(DbView { wal: wal_abort(db.wal, txn), ..db }),
{
    let r = LogView::Abort { lsn: 0, txn_id: txn };
    let records = log_records(db.wal.log);
    let after = DbView { wal: wal_abort(db.wal, txn), ..db };
    lemma_record_len(r);
    lemma_mirror_mark(db, after, r, committed_set(records));
    lemma_mark_outcome(records, r.numbered(db.wal.lsn));
    assert forall|i: int| 0 <= i < log_records(after.wal.log).len() implies ((
    #[trigger] log_records(after.wal.log)[i]).txn() matches Some(id) ==> id
        < after.wal.next_txn) by {
        if i < records.len() {
            assert(log_records(after.wal.log)[i] == records[i]);
        }
    }
}

proof fn lemma_slots_next(w: Work, s: Sweep, id: u32, n: nat)
    ensures
        sweep_slots(w, s, id, n).wal.next_txn == w.wal.next_txn,
    decreases n,
{
    if n > 0 {
        lemma_slots_next(w, s, id, (n - 1) as nat);
    }
}

proof fn lemma_pages_next(db: DbView, s: Sweep, ids: Seq<u32>, n: nat)
    ensures
        sweep_pages(db, s, ids, n).wal.next_txn == db.wal.next_txn,
    decreases n,
{
    if n > 0 {
        lemma_pages_next(db, s, ids, (n - 1) as nat);
        let v = sweep_pages(db, s, ids, (n - 1) as nat);
        if let Ok(d) = v.pages[ids[n - 1]] {
            let w = Work { page: d, wal: v.wal, indexes: v.indexes };
            lemma_slots_next(w, s, ids[n - 1], page_count(d) as nat);
        }
    }
}

proof fn lemma_sweep_logged(
    db: DbView,
    table: Seq<char>,
    filter: Option<ExprView>,
    set: Option<Seq<AssignmentView>>,
)
    requires
        heap_ok(db),
        logged(db),
        db.wal.next_txn < u32::MAX,
        sweep(db, table, filter, set).1 is Ok,
    ensures
        logged(sweep(db, table, filter, set).0),
{
    let base = log_records(db.wal.log);
    lemma_listed(db, table);
    let ids = table_pages(db.tables, table)->0;
    let s = sweep_of(db, table, filter, set);
    let begun = DbView { wal: wal_begin(db.wal), ..db };
    lemma_begun(db);
    lemma_same_heap(db, begun);
    lemma_mirror_pages(begun, s, ids, ids.len(), with_next(db));
    lemma_pages_next(begun, s, ids, ids.len());
    let v = sweep_pages(begun, s, ids, ids.len());
    lemma_goes_on(base, log_records(begun.wal.log), log_records(v.wal.log), s.txn);
    lemma_ended(db, v);
}

/// What an INSERT that succeeds does to the log.
pub proof fn lemma_insert_wal(db: DbView, table: Seq<char>, row: RowView)
    requires
        heap_ok(db),
        db.num_pages < u32::MAX,
        insert(db, table, row).1 is Ok,
    ensures
        ({
            let t = serialized((db.catalog.get(table)->0).columns, row)->Ok_0;
            let id = insert_rid(db, table, t.len()).page_id;
            let begun = wal_begin(db.wal);
            let after = insert(db, table, row).0;
            &&& page_fits(page_or_blank(begun.pages, id), t.len())
            &&& after.wal == wal_commit(wal_insert(begun, db.wal.next_txn, id, t), db.wal.next_txn)
            &&& after.catalog_file == db.catalog_file
        }),
{
    let k = lemma_insert_outcome(db, table, row);
}

/// The record of an insertion.
pub open spec fn insert_record(w: WalView, txn_id: u32, id: u32, t: Seq<u8>) -> LogView {
    LogView::Insert {
        lsn: 0,
        txn_id,
        page_id: id,
        slot_id: page_count(page_or_blank(w.pages, id)),
        data: t,
    }
}

/// Putting a tuple into two pages that read alike leaves two pages that read alike.
proof fn lemma_put_alike(p: Seq<u8>, d: Seq<u8>, t: Seq<u8>)
    requires
        p.len() == PAGE_SIZE,
        page_body(p) == d,
        page_fits(d, t.len()),
    ensures
        page_body(page_try_put(p, t)) == page_body(page_try_put(d, t)),
{
    assert(page_body(d) =~= d);
    law_body_reads(p, d);
    assert(page_fits(p, t.len()) == page_fits(d, t.len()));
    law_body_insert(p, d, t);
}

proof fn lemma_logged_at(
    db: DbView,
    table: Seq<char>,
    k: int,
    t: Seq<u8>,
    txn: u32,
    put: DbView,
    done: Set<u32>,
)
    requires
        heap_ok(db),
        mirrored(db, done),
        done.contains(txn),
        table_pages(db.tables, table) is Some,
        0 <= k < (table_pages(db.tables, table)->0).len(),
        ({
            let id = (table_pages(db.tables, table)->0)[k];
            let d = db.pages[id]->Ok_0;
            &&& page_fits(d, t.len())
            &&& page_fits(page_or_blank(db.wal.pages, id), t.len())
            &&& put.pages == db.pages.insert(id, Ok(page_body(page_try_put(d, t))))
            &&& put.wal == wal_insert(db.wal, txn, id, t)
        }),
        put.tables == db.tables,
        put.num_pages == db.num_pages,
    ensures
        mirrored(put, done),
        goes_on(log_records(db.wal.log), log_records(put.wal.log), txn),
{
    let id = (table_pages(db.tables, table)->0)[k];
    assert((table_pages(db.tables, table)->0).contains(id));
    lemma_listed_page(db, table, id, done);
    let d = db.pages[id]->Ok_0;
    let made = replayed(db.wal.log, done);
    let p = page_or_blank(made, id);
    let r = insert_record(db.wal, txn, id, t);
    lemma_put_alike(p, d, t);
    lemma_record_len(r);
    law_blank(id);
    assert(all_sized(put.wal.pages));
    let now = redo_one(made, r);
    assert(now == made.insert(id, now[id]));
    lemma_mirror_step(db, put, r, id, page_body(page_try_put(d, t)), done);
}

proof fn lemma_logged_new(
    db: DbView,
    table: Seq<char>,
    t: Seq<u8>,
    txn: u32,
    put: DbView,
    done: Set<u32>,
)
    requires
        heap_ok(db),
        mirrored(db, done),
        done.contains(txn),
        db.num_pages < u32::MAX,
        table_pages(db.tables, table) is Some,
        page_fits(page_body(page_blank(db.num_pages)), t.len()),
        page_fits(page_or_blank(db.wal.pages, db.num_pages), t.len()),
        put.pages == db.pages.insert(
            db.num_pages,
            Ok(page_body(page_try_put(page_body(page_blank(db.num_pages)), t))),
        ),
        put.wal == wal_insert(db.wal, txn, db.num_pages, t),
        put.tables == tables_put(
            db.tables,
            table,
            (table_pages(db.tables, table)->0).push(db.num_pages),
        ),
        put.num_pages == db.num_pages + 1,
    ensures
        mirrored(put, done),
        goes_on(log_records(db.wal.log), log_records(put.wal.log), txn),
{
    let id = db.num_pages;
    let made = replayed(db.wal.log, done);
    let d = page_body(page_blank(id));
    let r = insert_record(db.wal, txn, id, t);
    lemma_record_len(r);
    law_blank(id);
    assert(!made.contains_key(id)) by {
        if listed(db.tables, id) {
            let (i, k) = choose|i: int, k: int|
                0 <= i < db.tables.len() && 0 <= k < db.tables[i].pages.len()
                    && #[trigger] db.tables[i].pages[k] == id;
            assert(page_good(db, db.tables[i].pages[k]));
        }
    }
    lemma_put_alike(page_blank(id), d, t);
    assert(all_sized(put.wal.pages));
    lemma_append(db.wal, r, done);
    let now = replayed(put.wal.log, done);
    let i0 = lemma_list(db.tables, table);
    let ids = db.tables[i0].pages;
    assert forall|o: u32| #[trigger] now.contains_key(o) implies listed(put.tables, o) by {
        if o == id {
            assert(put.tables[i0].pages[ids.len() as int] == id);
        } else {
            assert(made.contains_key(o));
            let (i, k) = choose|i: int, k: int|
                0 <= i < db.tables.len() && 0 <= k < db.tables[i].pages.len()
                    && #[trigger] db.tables[i].pages[k] == o;
            assert(put.tables[i].pages[k] == o);
        }
    }
    assert forall|i: int, k: int|
        0 <= i < put.tables.len() && 0 <= k < put.tables[i].pages.len() implies put.pages[
    #[trigger] put.tables[i].pages[k]] == Ok::<Seq<u8>, StorageError>(
        page_body(page_or_blank(now, put.tables[i].pages[k])),
    ) by {
        if i != i0 || k < ids.len() {
            let o = db.tables[i].pages[k];
            assert(put.tables[i].pages[k] == o);
            assert(page_good(db, db.tables[i].pages[k]));
            assert(db.pages[db.tables[i].pages[k]] == Ok::<Seq<u8>, StorageError>(
                page_body(page_or_blank(made, o)),
            ));
        }
    }
}

proof fn lemma_insert_logged(db: DbView, table: Seq<char>, row: RowView)
    requires
        heap_ok(db),
        logged(db),
        db.num_pages < u32::MAX,
        db.wal.next_txn < u32::MAX,
        insert(db, table, row).1 is Ok,
    ensures
        logged(insert(db, table, row).0),
{
    let base = log_records(db.wal.log);
    let txn = db.wal.next_txn;
    let begun = DbView { wal: wal_begin(db.wal), ..db };
    let after = insert(db, table, row).0;
    let t = serialized((db.catalog.get(table)->0).columns, row)->Ok_0;
    let id = insert_rid(db, table, t.len()).page_id;
    lemma_begun(db);
    lemma_same_heap(db, begun);
    let k = lemma_insert_outcome(db, table, row);
    lemma_insert_wal(db, table, row);
    let put = DbView { wal: wal_insert(begun.wal, txn, id, t), ..after };
    if 0 <= k {
        lemma_logged_at(begun, table, k, t, txn, put, with_next(db));
    } else {
        lemma_logged_new(begun, table, t, txn, put, with_next(db));
    }
    lemma_goes_on(base, log_records(begun.wal.log), log_records(put.wal.log), txn);
    lemma_ended(db, put);
    assert(DbView { wal: wal_commit(put.wal, txn), ..put } == after);
}

// Statements that fail.

/// An INSERT that fails changes no row, and what it logs is not replayed.
proof fn lemma_insert_failed(db: DbView, table: Seq<char>, row: RowView)
    requires
        heap_ok(db),
        logged(db),
        filed(db),
        db.num_pages < u32::MAX,
        db.wal.next_txn < u32::MAX,
        insert(db, table, row).1 is Err,
    ensures
        logged(insert(db, table, row).0),
        filed(insert(db, table, row).0),
{
    let after = insert(db, table, row).0;
    assert(after.tables == db.tables);
    assert(after.catalog == db.catalog && after.catalog_file == db.catalog_file);
    assert(after.meta_files == db.meta_files);
    if after != db {
        let begun = DbView { wal: wal_begin(db.wal), ..db };
        lemma_begun(db);
        assert(after.wal.log == begun.wal.log);
        let done = committed_set(log_records(begun.wal.log));
        let made = replayed(begun.wal.log, done);
        assert(all_sized(after.wal.pages)) by {
            assert forall|id: u32| #[trigger] after.wal.pages.contains_key(
                id,
            ) implies after.wal.pages[id].len() == PAGE_SIZE by {
                law_blank(id);
            }
        }
        assert forall|i: int, k: int|
            0 <= i < after.tables.len() && 0 <= k < after.tables[i].pages.len() implies after.pages[
        #[trigger] after.tables[i].pages[k]] == Ok::<Seq<u8>, StorageError>(
            page_body(page_or_blank(made, after.tables[i].pages[k])),
        ) by {
            let o = db.tables[i].pages[k];
            assert(page_good(db, db.tables[i].pages[k]));
            assert(begun.pages[begun.tables[i].pages[k]] == Ok::<Seq<u8>, StorageError>(
                page_body(page_or_blank(made, o)),
            ));
        }
    }
}

// The slots that the log names.

proof fn lemma_slot_in_step(w: Work, s: Sweep, id: u32, slot: u16)
    requires
        in_step(w.wal),
        w.page.len() == PAGE_SIZE,
    ensures
        in_step(sweep_slot(w, s, id, slot).wal),
        sweep_slot(w, s, id, slot).page.len() == PAGE_SIZE,
{
    if let Some(t) = page_get(w.page, slot as int) {
        assert(t.len() <= PAGE_SIZE);
        match change_of(s, t) {
            Change::Keep => {},
            Change::Drop(_) => law_delete_stays_in_step(w.wal, s.txn, id, slot),
            Change::Write(_, _, u) => law_update_stays_in_step(w.wal, s.txn, id, slot, t, u),
        }
    }
}

proof fn lemma_slots_in_step(w: Work, s: Sweep, id: u32, n: nat)
    requires
        in_step(w.wal),
        w.page.len() == PAGE_SIZE,
    ensures
        in_step(sweep_slots(w, s, id, n).wal),
        sweep_slots(w, s, id, n).page.len() == PAGE_SIZE,
    decreases n,
{
    if n > 0 {
        lemma_slots_in_step(w, s, id, (n - 1) as nat);
        lemma_slot_in_step(sweep_slots(w, s, id, (n - 1) as nat), s, id, (n - 1) as u16);
    }
}

proof fn lemma_pages_in_step(db: DbView, s: Sweep, ids: Seq<u32>, n: nat)
    requires
        in_step(db.wal),
        forall|id: u32| (#[trigger] db.pages[id]) matches Ok(d) ==> d.len() == PAGE_SIZE,
    ensures
        in_step(sweep_pages(db, s, ids, n).wal),
        forall|id: u32| (#[trigger] sweep_pages(db, s, ids, n).pages[id]) matches Ok(d) ==> d.len()
            == PAGE_SIZE,
    decreases n,
{
    if n > 0 {
        lemma_pages_in_step(db, s, ids, (n - 1) as nat);
        let v = sweep_pages(db, s, ids, (n - 1) as nat);
        let id = ids[n - 1];
        if let Ok(d) = v.pages[id] {
            let w = Work { page: d, wal: v.wal, indexes: v.indexes };
            lemma_slots_in_step(w, s, id, page_count(d) as nat);
        }
    }
}

proof fn lemma_sweep_in_step(
    db: DbView,
    table: Seq<char>,
    filter: Option<ExprView>,
    set: Option<Seq<AssignmentView>>,
)
    requires
        db_wf(db),
        in_step(db.wal),
    ensures
        in_step(sweep(db, table, filter, set).0.wal),
{
    if db.catalog.get(table) is Some {
        let s = sweep_of(db, table, filter, set);
        let ids = table_pages(db.tables, table)->0;
        let begun = DbView { wal: wal_begin(db.wal), ..db };
        law_marks_stay_in_step(db.wal, s.txn);
        law_marks_stay_in_step(begun.wal, s.txn);
        lemma_pages_in_step(begun, s, ids, ids.len());
        law_marks_stay_in_step(sweep_pages(begun, s, ids, ids.len()).wal, s.txn);
    }
}

proof fn lemma_insert_in_step(db: DbView, table: Seq<char>, row: RowView)
    requires
        in_step(db.wal),
    ensures
        in_step(insert(db, table, row).0.wal),
{
    if let Some(schema) = db.catalog.get(table) {
        if let Ok(t) = serialized(schema.columns, row) {
            let txn = db.wal.next_txn;
            let begun = wal_begin(db.wal);
            law_marks_stay_in_step(db.wal, txn);
            let ids = table_pages(db.tables, table)->0;
            let id = match place_for(db.pages, ids, t.len(), 0) {
                Place::At(id) => id,
                _ => db.num_pages,
            };
            law_insert_stays_in_step(begun, txn, id, t);
            law_marks_stay_in_step(wal_insert(begun, txn, id, t), txn);
        }
    }
}

/// Every statement, whether it succeeds or not, leaves a log in which every insertion names the slot
/// that it takes, so that recovery from it puts every row back in its place.
pub proof fn law_log_stays_in_step(db: DbView, stmt: StatementView)
    requires
        db_wf(db),
        in_step(db.wal),
    ensures
        in_step(execute(db, stmt).0.wal),
{
    match stmt {
        StatementView::CreateTable { .. } => {},
        StatementView::Insert { table, values } => lemma_insert_in_step(db, table, values),
        StatementView::Select { .. } => {},
        StatementView::Delete { table, filter } => lemma_sweep_in_step(db, table, filter, None),
        StatementView::Update { table, assignments, filter } => lemma_sweep_in_step(
            db,
            table,
            filter,
            Some(assignments),
        ),
    }
}

// Files.

/// The page list of a table is read back from its file as it was written.
pub proof fn law_page_list_round_trip(ids: Seq<u32>)
    requires
        ids.len() <= u32::MAX,
    ensures
        meta_of(meta_bytes(ids)) == ids,
{
    let buf = meta_bytes(ids);
    let n = ids.len() as u32;
    assert(len32(ids.len()) == n);
    lemma_ids_len(ids);
    assert(holds_at(buf, 0, le32(n)));
    lemma_un32(buf, 0, n);
    assert(buf.len() == 4 + 4 * ids.len());
    assert forall|i: int| 0 <= i < ids.len() implies un32(buf, 4 + 4 * i) == #[trigger] ids[i] by {
        lemma_ids_at(ids, i);
        assert forall|k: int| 0 <= k < 4 implies #[trigger] buf[4 + 4 * i + k] == le32(
            ids[i],
        )[k] by {
            assert(ids_bytes(ids)[4 * i + k] == le32(ids[i])[k]);
        }
        lemma_un32(buf, 4 + 4 * i, ids[i]);
    }
    assert(meta_of(buf) =~= ids);
}

/// The files hold the catalog and the page lists of its tables.
pub open spec fn filed(db: DbView) -> bool {
    &&& catalog_in(db.catalog_file) == Ok::<CatalogView, Seq<char>>(db.catalog)
    &&& forall|i: int|
        0 <= i < db.catalog.tables.len() ==> meta_in(
            db.meta_files,
            (#[trigger] db.catalog.tables[i]).name,
        ) == table_pages(db.tables, db.catalog.tables[i].name)->0
}

/// What a restart gives back: the tables are in order, recovery makes their pages of the log, and the
/// files hold the catalog and the page lists.
pub open spec fn durable(db: DbView) -> bool {
    &&& heap_ok(db)
    &&& entry_names(db.tables) == table_names(db.catalog.tables)
    &&& logged(db)
    &&& filed(db)
}

/// Writing the file of a table gives it those bytes, and leaves the others as they were.
proof fn lemma_files_put(
    files: Seq<(Seq<char>, Seq<u8>)>,
    name: Seq<char>,
    bytes: Seq<u8>,
    other: Seq<char>,
)
    ensures
        meta_in(files_put(files, name, bytes), other) == (if other == name {
            meta_of(bytes)
        } else {
            meta_in(files, other)
        }),
{
    let names = file_names(files);
    let after = files_put(files, name, bytes);
    lemma_position(names, name, 0);
    lemma_position(names, other, 0);
    match position(names, name, 0) {
        Some(i) => {
            assert(file_names(after) =~= names);
        },
        None => {
            assert(file_names(after) =~= names.push(name));
            lemma_position_push(names, name, other, 0);
        },
    }
}

pub proof fn lemma_insert_filed(db: DbView, table: Seq<char>, row: RowView)
    requires
        heap_ok(db),
        filed(db),
        db.num_pages < u32::MAX,
        insert(db, table, row).1 is Ok,
    ensures
        filed(insert(db, table, row).0),
{
    let after = insert(db, table, row).0;
    let k = lemma_insert_outcome(db, table, row);
    lemma_insert_wal(db, table, row);
    let i0 = lemma_list(db.tables, table);
    let ids = table_pages(db.tables, table)->0;
    if 0 <= k {
        assert(after.meta_files == db.meta_files);
    } else {
        let now = ids.push(db.num_pages);
        assert(after.meta_files == files_put(db.meta_files, table, meta_bytes(now)));
        assert(db.tables[i0].pages.len() <= db.num_pages);
        law_page_list_round_trip(now);
        assert forall|i: int| 0 <= i < after.catalog.tables.len() implies meta_in(
            after.meta_files,
            (#[trigger] after.catalog.tables[i]).name,
        ) == table_pages(after.tables, after.catalog.tables[i].name)->0 by {
            let name = after.catalog.tables[i].name;
            assert(name == db.catalog.tables[i].name);
            lemma_files_put(db.meta_files, table, meta_bytes(now), name);
            lemma_tables_put(db.tables, table, now, name);
        }
    }
}

/// An INSERT adds no list.
pub proof fn lemma_insert_names(db: DbView, table: Seq<char>, row: RowView)
    requires
        heap_ok(db),
        db.num_pages < u32::MAX,
        insert(db, table, row).1 is Ok,
    ensures
        entry_names(insert(db, table, row).0.tables) == entry_names(db.tables),
        insert(db, table, row).0.catalog == db.catalog,
{
    let after = insert(db, table, row).0;
    let k = lemma_insert_outcome(db, table, row);
    let i = lemma_list(db.tables, table);
    lemma_position(entry_names(db.tables), table, 0);
    assert(entry_names(after.tables) =~= entry_names(db.tables));
}

/// A table that is created is new to the lists too.
pub proof fn lemma_create_lists(db: DbView, table: Seq<char>, columns: Seq<ColumnView>)
    requires
        durable(db),
        create_table(db, table, columns).1 is Ok,
    ensures
        ({
            let after = create_table(db, table, columns).0;
            &&& after.tables == db.tables.push(TableView { name: table, pages: Seq::empty() })
            &&& entry_names(after.tables) == table_names(after.catalog.tables)
        }),
{
    let after = create_table(db, table, columns).0;
    lemma_position(entry_names(db.tables), table, 0);
    assert(position(entry_names(db.tables), table, 0) is None);
    assert(entry_names(after.tables) =~= table_names(after.catalog.tables)) by {
        assert(entry_names(after.tables) =~= entry_names(db.tables).push(table));
        assert(table_names(after.catalog.tables) =~= table_names(db.catalog.tables).push(table));
    }
}

proof fn lemma_create_logged(db: DbView, table: Seq<char>, columns: Seq<ColumnView>)
    requires
        durable(db),
        create_table(db, table, columns).1 is Ok,
    ensures
        logged(create_table(db, table, columns).0),
{
    let after = create_table(db, table, columns).0;
    let made = replayed(db.wal.log, committed_set(log_records(db.wal.log)));
    lemma_create_lists(db, table, columns);
    assert forall|id: u32| #[trigger] made.contains_key(id) implies listed(after.tables, id) by {
        let (i, k) = choose|i: int, k: int|
            0 <= i < db.tables.len() && 0 <= k < db.tables[i].pages.len()
                && #[trigger] db.tables[i].pages[k] == id;
        assert(after.tables[i].pages[k] == id);
    }
    assert forall|i: int, k: int|
        0 <= i < after.tables.len() && 0 <= k < after.tables[i].pages.len() implies {
        let id = #[trigger] after.tables[i].pages[k];
        after.pages[id] == Ok::<Seq<u8>, StorageError>(page_body(page_or_blank(made, id)))
    } by {
        assert(db.pages[db.tables[i].pages[k]] == after.pages[after.tables[i].pages[k]]);
    }
}

proof fn lemma_create_filed(db: DbView, table: Seq<char>, columns: Seq<ColumnView>)
    requires
        durable(db),
        create_table(db, table, columns).1 is Ok,
        saveable(create_table(db, table, columns).0.catalog),
    ensures
        filed(create_table(db, table, columns).0),
{
    let after = create_table(db, table, columns).0;
    let none = Seq::<u32>::empty();
    law_catalog_round_trip(after.catalog);
    law_page_list_round_trip(none);
    assert forall|i: int| 0 <= i < after.catalog.tables.len() implies meta_in(
        after.meta_files,
        (#[trigger] after.catalog.tables[i]).name,
    ) == table_pages(after.tables, after.catalog.tables[i].name)->0 by {
        let name = after.catalog.tables[i].name;
        lemma_files_put(db.meta_files, table, meta_bytes(none), name);
        lemma_tables_put(db.tables, table, none, name);
        if i < db.catalog.tables.len() {
            assert(name == db.catalog.tables[i].name);
        }
    }
}

/// After every statement, a restart gives back what it left: what it did if it succeeds, and what was
/// there before if it fails. What a CREATE TABLE saves fits the length fields of the catalog file.
pub proof fn law_statements_are_durable(db: DbView, stmt: StatementView)
    requires
        durable(db),
        db.num_pages < u32::MAX,
        db.wal.next_txn < u32::MAX,
        stmt is CreateTable && execute(db, stmt).1 is Ok ==> saveable(execute(db, stmt).0.catalog),
    ensures
        durable(execute(db, stmt).0),
{
    law_tables_stay_in_order(db, stmt);
    match stmt {
        StatementView::CreateTable { table, columns } => {
            if execute(db, stmt).1 is Ok {
                lemma_create_lists(db, table, columns);
                lemma_create_logged(db, table, columns);
                lemma_create_filed(db, table, columns);
            }
        },
        StatementView::Insert { table, values } => {
            if execute(db, stmt).1 is Ok {
                lemma_insert_logged(db, table, values);
                lemma_insert_filed(db, table, values);
                lemma_insert_names(db, table, values);
            } else {
                lemma_insert_failed(db, table, values);
            }
        },
        StatementView::Select { .. } => {},
        StatementView::Delete { table, filter } => lemma_sweep_durable(db, table, filter, None),
        StatementView::Update { table, assignments, filter } => lemma_sweep_durable(
            db,
            table,
            filter,
            Some(assignments),
        ),
    }
}

proof fn lemma_sweep_durable(
    db: DbView,
    table: Seq<char>,
    filter: Option<ExprView>,
    set: Option<Seq<AssignmentView>>,
)
    requires
        durable(db),
        db.wal.next_txn < u32::MAX,
    ensures
        logged(sweep(db, table, filter, set).0),
        filed(sweep(db, table, filter, set).0),
        sweep(db, table, filter, set).0.tables == db.tables,
        sweep(db, table, filter, set).0.catalog == db.catalog,
{
    if sweep(db, table, filter, set).1 is Ok {
        lemma_sweep_filed(db, table, filter, set);
        lemma_sweep_logged(db, table, filter, set);
    } else {
        law_failed_sweep_changes_nothing(db, table, filter, set);
        if db.catalog.get(table) is Some {
            let begun = DbView { wal: wal_begin(db.wal), ..db };
            lemma_begun(db);
            lemma_aborted(begun, db.wal.next_txn);
        }
    }
}

/// A DELETE or UPDATE leaves the files other than the log and the pages as they were.
proof fn lemma_sweep_filed(
    db: DbView,
    table: Seq<char>,
    filter: Option<ExprView>,
    set: Option<Seq<AssignmentView>>,
)
    requires
        heap_ok(db),
        filed(db),
        sweep(db, table, filter, set).1 is Ok,
    ensures
        filed(sweep(db, table, filter, set).0),
        sweep(db, table, filter, set).0.tables == db.tables,
        sweep(db, table, filter, set).0.catalog == db.catalog,
        sweep(db, table, filter, set).0.num_pages == db.num_pages,
{
    lemma_listed(db, table);
    lemma_good_list(db, table);
    let ids = table_pages(db.tables, table)->0;
    let begun = DbView { wal: wal_begin(db.wal), ..db };
    lemma_same_heap(db, begun);
    assert forall|k: int| 0 <= k < ids.len() implies page_good(begun, #[trigger] ids[k]) by {
        assert(page_good(db, ids[k]));
    }
    lemma_pages(begun, sweep_of(db, table, filter, set), ids, ids.len());
}

// Restarting.

/// The database that opening the files of `db` and recovering gives, where `file` is the database
/// file.
pub open spec fn restarted(db: DbView, file: Seq<Seq<u8>>) -> DbView {
    recovered_with(opened(file, db.wal.log, db.catalog_file, db.meta_files), db.catalog)
}

/// The pages of the tables that the log does not make are empty on the file.
pub open spec fn unlogged_empty(db: DbView, file: Seq<Seq<u8>>) -> bool {
    let made = recovered(log_records(db.wal.log));
    forall|i: int, k: int|
        0 <= i < db.tables.len() && 0 <= k < db.tables[i].pages.len() && !made.contains_key(
            #[trigger] db.tables[i].pages[k],
        ) ==> page_body(file[db.tables[i].pages[k] as int]) == page_body(
            page_blank(db.tables[i].pages[k]),
        )
}

/// The database file has every page of the tables. It may hold an earlier state of them.
pub open spec fn on_file(db: DbView, file: Seq<Seq<u8>>) -> bool {
    &&& file.len() <= u32::MAX
    &&& forall|i: int| 0 <= i < file.len() ==> (#[trigger] file[i]).len() == PAGE_SIZE
    &&& lists_on_file(db.tables, file)
    &&& unlogged_empty(db, file)
}

/// The database file of an executor has every page of the tables once their lists are on it; every
/// statement keeps them there.
pub proof fn law_executor_pages_are_on_file(e: Executor)
    requires
        e.wf(),
        lists_on_file(e@.tables, e.file()),
        unlogged_empty(e@, e.file()),
    ensures
        on_file(e@, e.file()),
{
    e.law_file_pages();
}

/// There are at most `n` numbers below `n`.
proof fn lemma_few_below(s: Seq<u32>, n: nat)
    requires
        s.no_duplicates(),
        forall|i: int| 0 <= i < s.len() ==> (#[trigger] s[i]) < n,
    ensures
        s.len() <= n,
    decreases n,
{
    if s.len() > 0 {
        assert(s[0] < n);
        if exists|k: int| 0 <= k < s.len() && s[k] == n - 1 {
            let k = choose|k: int| 0 <= k < s.len() && s[k] == n - 1;
            let r = s.remove(k);
            assert forall|i: int| 0 <= i < r.len() implies (#[trigger] r[i]) < n - 1 by {
                let j = if i < k {
                    i
                } else {
                    i + 1
                };
                assert(r[i] == s[j]);
                assert(s[j] != s[k]);
            }
            assert(r.no_duplicates()) by {
                assert forall|i: int, j: int|
                    0 <= i < r.len() && 0 <= j < r.len() && i != j implies r[i] != r[j] by {
                    let a = if i < k {
                        i
                    } else {
                        i + 1
                    };
                    let b = if j < k {
                        j
                    } else {
                        j + 1
                    };
                    assert(s[a] != s[b]);
                }
            }
            lemma_few_below(r, (n - 1) as nat);
        } else {
            lemma_few_below(s, (n - 1) as nat);
        }
    }
}

/// The page lists after a restart are those before it.
pub proof fn lemma_lists_back(db: DbView, file: Seq<Seq<u8>>, table: Seq<char>)
    requires
        durable(db),
        db.catalog.get(table) is Some,
    ensures
        table_pages(restarted(db, file).tables, table) == table_pages(db.tables, table),
        table_pages(db.tables, table) is Some,
{
    let c = db.catalog;
    let tables = metas_in(db.meta_files, c);
    lemma_listed(db, table);
    lemma_position(table_names(c.tables), table, 0);
    assert(entry_names(tables) =~= table_names(c.tables));
    let i = position(table_names(c.tables), table, 0)->0;
    assert(table_names(c.tables)[i] == c.tables[i].name);
    assert(tables[i].pages == meta_in(db.meta_files, c.tables[i].name));
}

/// The pages of the tables after a restart are those before it.
pub proof fn lemma_page_back(db: DbView, file: Seq<Seq<u8>>, id: u32, i: int, k: int)
    requires
        durable(db),
        on_file(db, file),
        0 <= i < db.tables.len(),
        0 <= k < db.tables[i].pages.len(),
        db.tables[i].pages[k] == id,
    ensures
        restarted(db, file).pages[id] == db.pages[id],
        page_good(db, id),
{
    law_torn_record_is_dropped(db.wal.log);
    let made = replayed(db.wal.log, committed_set(log_records(db.wal.log)));
    assert(page_good(db, db.tables[i].pages[k]));
    assert(db.tables[i].pages[k] < file.len());
    assert(!made.contains_key(id) ==> page_body(file[id as int]) == page_body(page_blank(id)));
    assert(db.pages[db.tables[i].pages[k]] == Ok::<Seq<u8>, StorageError>(
        page_body(page_or_blank(made, id)),
    ));
}

/// The lists after a restart are those before it.
pub proof fn lemma_tables_back(db: DbView, file: Seq<Seq<u8>>)
    requires
        durable(db),
    ensures
        restarted(db, file).tables == db.tables,
{
    let r = restarted(db, file);
    let names = entry_names(db.tables);
    assert(table_names(db.catalog.tables) == names);
    assert(r.tables.len() == db.tables.len()) by {
        assert(names.len() == table_names(db.catalog.tables).len());
    }
    assert forall|i: int| 0 <= i < db.tables.len() implies #[trigger] r.tables[i]
        == db.tables[i] by {
        let name = db.tables[i].name;
        assert(names[i] == table_names(db.catalog.tables)[i]);
        assert(db.catalog.tables[i].name == name);
        lemma_position(names, name, 0);
        let j = position(names, name, 0)->0;
        if j != i {
            assert(names[j] == table_names(db.catalog.tables)[j]);
            assert(db.catalog.tables[j].name == db.catalog.tables[i].name);
        }
        assert(meta_in(db.meta_files, db.catalog.tables[i].name) == table_pages(
            db.tables,
            name,
        )->0);
    }
    assert(r.tables =~= db.tables);
}

/// After a restart the tables are in order.
proof fn lemma_heap_back(db: DbView, file: Seq<Seq<u8>>)
    requires
        durable(db),
        on_file(db, file),
    ensures
        heap_ok(restarted(db, file)),
{
    let r = restarted(db, file);
    lemma_tables_back(db, file);
    assert forall|id: u32| (#[trigger] r.pages[id]) matches Ok(d) ==> d.len() == PAGE_SIZE
        && page_body(d) == d by {
        law_torn_record_is_dropped(db.wal.log);
        let records = log_records(db.wal.log);
        let made = replayed(db.wal.log, committed_set(records));
        lemma_replay_sized(records, committed_set(records), records.len());
        if made.contains_key(id) {
            let d = page_body(made[id]);
            assert(page_body(d) =~= d);
        }
        if id < file.len() {
            let d = page_body(file[id as int]);
            assert(page_body(d) =~= d);
        }
    }
    assert forall|i: int, k: int|
        0 <= i < r.tables.len() && 0 <= k < r.tables[i].pages.len() implies page_good(
        r,
        #[trigger] r.tables[i].pages[k],
    ) by {
        lemma_page_back(db, file, db.tables[i].pages[k], i, k);
    }
    assert forall|i: int| 0 <= i < r.tables.len() implies (#[trigger] r.tables[i]).pages.len()
        <= r.num_pages by {
        let ids = db.tables[i].pages;
        assert forall|k: int| 0 <= k < ids.len() implies (#[trigger] ids[k]) < file.len() by {
            assert(db.tables[i].pages[k] < file.len());
        }
        assert(ids.no_duplicates()) by {
            assert forall|k: int, l: int|
                0 <= k < ids.len() && 0 <= l < ids.len() && k != l implies ids[k] != ids[l] by {
                assert(db.tables[i].pages[k] != db.tables[i].pages[l]);
            }
        }
        lemma_few_below(ids, file.len());
    }
}

/// After a restart the log still makes the pages of the tables.
proof fn lemma_mirror_back(db: DbView, file: Seq<Seq<u8>>)
    requires
        durable(db),
        on_file(db, file),
    ensures
        mirrored(restarted(db, file), committed_set(log_records(db.wal.log))),
{
    let r = restarted(db, file);
    let records = log_records(db.wal.log);
    let made = replayed(db.wal.log, committed_set(records));
    lemma_tables_back(db, file);
    law_torn_record_is_dropped(db.wal.log);
    lemma_replay_sized(records, committed_set(records), records.len());
    assert forall|i: int, k: int|
        0 <= i < r.tables.len() && 0 <= k < r.tables[i].pages.len() implies r.pages[
    #[trigger] r.tables[i].pages[k]] == Ok::<Seq<u8>, StorageError>(
        page_body(page_or_blank(made, r.tables[i].pages[k])),
    ) by {
        lemma_page_back(db, file, db.tables[i].pages[k], i, k);
        assert(db.pages[db.tables[i].pages[k]] == Ok::<Seq<u8>, StorageError>(
            page_body(page_or_blank(made, db.tables[i].pages[k])),
        ));
    }
}

/// What committed statements left in the tables survives a restart, whichever of their changes had
/// reached the pages of the database file: once the database is opened on its files and recovered,
/// the catalog and the rows of every table are those before, and a further restart gives them back
/// too.
pub proof fn law_committed_rows_survive_restart(db: DbView, file: Seq<Seq<u8>>)
    requires
        durable(db),
        on_file(db, file),
    ensures
        catalog_in(db.catalog_file) == Ok::<CatalogView, Seq<char>>(db.catalog),
        durable(restarted(db, file)),
        restarted(db, file).catalog == db.catalog,
        forall|table: Seq<char>|
            db.catalog.get(table) is Some ==> #[trigger] table_cells(restarted(db, file), table)
                == table_cells(db, table),
        forall|table: Seq<char>|
            #[trigger] all_rows(restarted(db, file), table) == all_rows(db, table),
{
    let r = restarted(db, file);
    law_torn_record_is_dropped(db.wal.log);
    law_txn_ids_after_reopen(db.wal.log);
    lemma_tables_back(db, file);
    lemma_heap_back(db, file);
    lemma_mirror_back(db, file);
    assert forall|i: int| 0 <= i < r.catalog.tables.len() implies meta_in(
        r.meta_files,
        (#[trigger] r.catalog.tables[i]).name,
    ) == table_pages(r.tables, r.catalog.tables[i].name)->0 by {
        let name = db.catalog.tables[i].name;
        lemma_position(table_names(db.catalog.tables), name, 0);
        assert(table_names(db.catalog.tables)[i] == name);
        lemma_lists_back(db, file, name);
        assert(meta_in(db.meta_files, name) == table_pages(db.tables, name)->0);
    }
    assert forall|table: Seq<char>| db.catalog.get(table) is Some implies #[trigger] table_cells(
        r,
        table,
    ) == table_cells(db, table) by {
        lemma_cells_back(db, file, table);
    }
    assert forall|table: Seq<char>| #[trigger] all_rows(r, table) == all_rows(db, table) by {
        if db.catalog.get(table) is Some {
            law_select_reads_table(db, table, SelectView::Star);
            law_select_reads_table(r, table, SelectView::Star);
            lemma_cells_back(db, file, table);
        }
    }
}

/// The rows of a table after a restart are those before it.
proof fn lemma_cells_back(db: DbView, file: Seq<Seq<u8>>, table: Seq<char>)
    requires
        durable(db),
        on_file(db, file),
        db.catalog.get(table) is Some,
    ensures
        table_cells(restarted(db, file), table) == table_cells(db, table),
{
    let r = restarted(db, file);
    lemma_lists_back(db, file, table);
    let j = lemma_list(db.tables, table);
    let ids = table_pages(db.tables, table)->0;
    assert forall|k: int| 0 <= k < ids.len() implies r.pages[#[trigger] ids[k]]
        == db.pages[ids[k]] by {
        lemma_page_back(db, file, ids[k], j, k);
    }
    lemma_cells_same(r.pages, db.pages, ids, ids.len());
}

/// A record that was cut short at the end of the log changes nothing of the database that is opened.
pub proof fn law_torn_log_opens_alike(
    file: Seq<Seq<u8>>,
    log: Seq<u8>,
    catalog_file: Option<Seq<u8>>,
    meta_files: Seq<(Seq<char>, Seq<u8>)>,
)
    ensures
        opened(file, log, catalog_file, meta_files) == opened(
            file,
            whole_part(log),
            catalog_file,
            meta_files,
        ),
{
    law_torn_record_is_dropped(log);
    law_torn_record_is_dropped(whole_part(log));
}

/// A database with no files yet holds no tables and is durable.
pub proof fn law_new_database_is_durable()
    ensures
        durable(opened(Seq::empty(), Seq::empty(), None, Seq::empty())),
{
    let db = opened(Seq::empty(), Seq::empty(), None, Seq::empty());
    law_empty_log();
    law_torn_record_is_dropped(Seq::empty());
    assert(log_records(db.wal.log) =~= Seq::empty());
    assert(entry_names(db.tables) =~= table_names(db.catalog.tables));
}

} // verus!
