//! What a crash in the middle of a statement leaves: nothing of the statement.
use crate::engine::catalog::{serialized, table_names};
use crate::engine::changes::{all_rows, law_failed_sweep_changes_nothing, law_tables_stay_in_order};
use crate::engine::contents::{
    cells_upto, heap_ok, insert_rid, law_select_reads_table, lemma_cells_same, lemma_good_list,
    lemma_heap_page, lemma_insert_outcome, lemma_list, lemma_listed, page_cells, page_good,
};
use crate::engine::durability::{
    all_sized, durable, filed, goes_on, insert_record, law_committed_rows_survive_restart,
    law_torn_log_opens_alike, lemma_create_lists, lemma_insert_filed, lemma_insert_names,
    lemma_insert_wal, lemma_listed_page, lemma_saved_short, lemma_tables_back, listed, on_file,
    replayed, restarted, unlogged_empty,
};
use crate::engine::executor::opened;
use crate::engine::model::{
    change_of, entry_names, execute, insert, recovered_with, sweep, sweep_of, sweep_pages,
    sweep_slot, sweep_slots, table_pages, Change, DbView, RowView, Sweep, Work,
};
use crate::engine::tables::lemma_tables_put;
use crate::recovery::log_record::{framed, lemma_record_len, LogView};
use crate::recovery::wal::{
    committed_set, law_append_reads_back, law_cut_log_holds_first_records,
    law_cut_off_transaction_is_left_out, law_torn_record_is_dropped, law_torn_record_is_not_read,
    lemma_cut_goes_on, log_records, page_or_blank, page_try_skip, recovered, redo_in, skip_all,
    wal_append, wal_begin, wal_insert, wal_old_data, whole, whole_part, WalView,
};
use crate::sql::ast::{AssignmentView, ExprView, SelectView, StatementView};
use crate::storage::error::StorageError;
use crate::storage::page::{
    law_blank, law_body_reads, law_body_wf, law_delete, law_insert, page_blank, page_body,
    page_count, page_fits, page_get, page_put, page_wf, PAGE_SIZE,
};
use vstd::prelude::*;

verus! {

/// The database that opening the files and recovering gives, where `log` is what there is of the
/// log, `metas` are the page lists and `file` is the database file.
pub open spec fn crashed(
    db: DbView,
    log: Seq<u8>,
    metas: Seq<(Seq<char>, Seq<u8>)>,
    file: Seq<Seq<u8>>,
) -> DbView {
    recovered_with(opened(file, log, db.catalog_file, metas), db.catalog)
}

/// The pages that the log makes are in the page lists.
pub open spec fn made_listed(db: DbView) -> bool {
    forall|id: u32| #[trigger]
        recovered(log_records(db.wal.log)).contains_key(id) ==> listed(db.tables, id)
}

/// A log goes on from `log` with records of transaction `txn`, none of which is a commit.
pub open spec fn open_end(log: Seq<u8>, w: WalView, txn: u32) -> bool {
    &&& log.is_prefix_of(w.log)
    &&& whole(log)
    &&& whole(w.log)
    &&& all_sized(w.pages)
    &&& goes_on(log_records(log), log_records(w.log), txn)
    &&& forall|i: int|
        log_records(log).len() <= i < log_records(w.log).len() ==> !(#[trigger] log_records(
            w.log,
        )[i] is Commit)
}

/// None of the records with which a log goes on from `log` is an insertion.
pub open spec fn inserts_none(log: Seq<u8>, w: WalView) -> bool {
    forall|i: int|
        log_records(log).len() <= i < log_records(w.log).len() ==> !(#[trigger] log_records(
            w.log,
        )[i] is Insert)
}

proof fn lemma_open_append(log: Seq<u8>, w: WalView, v: WalView, r: LogView, txn: u32)
    requires
        open_end(log, w, txn),
        r.encodable(),
        r.txn() == Some(txn),
        !(r is Commit),
        v.log == wal_append(w, r).log,
        all_sized(v.pages),
    ensures
        open_end(log, v, txn),
        inserts_none(log, w) && !(r is Insert) ==> inserts_none(log, v),
        log_records(v.log) == log_records(w.log).push(r.numbered(w.lsn)),
{
    lemma_record_len(r);
    lemma_record_len(r.numbered(w.lsn));
    law_append_reads_back(w.log, r.numbered(w.lsn));
    let a = log_records(w.log);
    let b = log_records(v.log);
    assert(b == a.push(r.numbered(w.lsn)));
    assert(log.is_prefix_of(v.log)) by {
        assert(log =~= v.log.take(log.len() as int)) by {
            assert(log =~= w.log.take(log.len() as int));
        }
    }
    assert forall|i: int| log_records(log).len() <= i < b.len() implies (#[trigger] b[i]).txn()
        == Some(txn) && !(b[i] is Commit) by {
        if i < a.len() {
            assert(b[i] == a[i]);
        }
    }
    assert forall|i: int| 0 <= i < log_records(log).len() implies #[trigger] b[i] == log_records(
        log,
    )[i] by {
        assert(b[i] == a[i]);
    }
    if inserts_none(log, w) && !(r is Insert) {
        assert forall|i: int| log_records(log).len() <= i < b.len() implies !(
        #[trigger] b[i] is Insert) by {
            if i < a.len() {
                assert(b[i] == a[i]);
            }
        }
    }
}

// Deleting and updating.

proof fn lemma_slot_open(log: Seq<u8>, w: Work, s: Sweep, id: u32, slot: u16)
    requires
        open_end(log, w.wal, s.txn),
        inserts_none(log, w.wal),
        w.page.len() == PAGE_SIZE,
    ensures
        open_end(log, sweep_slot(w, s, id, slot).wal, s.txn),
        inserts_none(log, sweep_slot(w, s, id, slot).wal),
        sweep_slot(w, s, id, slot).page.len() == PAGE_SIZE,
{
    let v = sweep_slot(w, s, id, slot);
    if let Some(t) = page_get(w.page, slot as int) {
        assert(t.len() <= PAGE_SIZE);
        match change_of(s, t) {
            Change::Keep => {},
            Change::Drop(_) => {
                let old_data = wal_old_data(w.wal, id, slot);
                lemma_saved_short(w.wal, id, slot);
                let r = LogView::Delete { lsn: 0, txn_id: s.txn, page_id: id, slot_id: slot, old_data };
                lemma_record_len(r);
                lemma_open_append(log, w.wal, v.wal, r, s.txn);
            },
            Change::Write(_, _, u) => {
                let r = LogView::Update {
                    lsn: 0,
                    txn_id: s.txn,
                    page_id: id,
                    slot_id: slot,
                    old_data: t,
                    new_data: u,
                };
                lemma_record_len(r);
                lemma_open_append(log, w.wal, v.wal, r, s.txn);
            },
        }
    }
}

proof fn lemma_slots_open(log: Seq<u8>, w: Work, s: Sweep, id: u32, n: nat)
    requires
        open_end(log, w.wal, s.txn),
        inserts_none(log, w.wal),
        w.page.len() == PAGE_SIZE,
    ensures
        open_end(log, sweep_slots(w, s, id, n).wal, s.txn),
        inserts_none(log, sweep_slots(w, s, id, n).wal),
        sweep_slots(w, s, id, n).page.len() == PAGE_SIZE,
    decreases n,
{
    if n > 0 {
        lemma_slots_open(log, w, s, id, (n - 1) as nat);
        lemma_slot_open(log, sweep_slots(w, s, id, (n - 1) as nat), s, id, (n - 1) as u16);
    }
}

proof fn lemma_pages_open(log: Seq<u8>, db: DbView, s: Sweep, ids: Seq<u32>, n: nat)
    requires
        open_end(log, db.wal, s.txn),
        inserts_none(log, db.wal),
        forall|id: u32| (#[trigger] db.pages[id]) matches Ok(d) ==> d.len() == PAGE_SIZE,
    ensures
        open_end(log, sweep_pages(db, s, ids, n).wal, s.txn),
        inserts_none(log, sweep_pages(db, s, ids, n).wal),
        forall|id: u32| (#[trigger] sweep_pages(db, s, ids, n).pages[id]) matches Ok(d) ==> d.len()
            == PAGE_SIZE,
    decreases n,
{
    if n > 0 {
        lemma_pages_open(log, db, s, ids, (n - 1) as nat);
        let v = sweep_pages(db, s, ids, (n - 1) as nat);
        let id = ids[n - 1];
        if let Ok(d) = v.pages[id] {
            let w = Work { page: d, wal: v.wal, indexes: v.indexes };
            lemma_slots_open(log, w, s, id, page_count(d) as nat);
        }
    }
}

// The log that is left.

/// What is read of a log that is cut off before the end of its last record.
proof fn lemma_cut_tail(log: Seq<u8>, w: WalView, c: LogView, m: int, txn: u32) -> (tail: Seq<
    LogView,
>)
    requires
        open_end(log, w, txn),
        c.encodable(),
        log.len() <= m < (w.log + framed(c)).len(),
    ensures
        log_records((w.log + framed(c)).take(m)) == log_records(log) + tail,
        (log_records(log) + tail).is_prefix_of(log_records(w.log)),
        forall|i: int|
            0 <= i < tail.len() ==> (#[trigger] tail[i]).txn() == Some(txn) && !(tail[i] is Commit),
        inserts_none(log, w) ==> forall|i: int|
            0 <= i < tail.len() ==> !(#[trigger] tail[i] is Insert),
{
    let all = w.log + framed(c);
    let cut = all.take(m);
    let base = log_records(log);
    let q = log_records(cut);
    let full = log_records(w.log);
    if m < w.log.len() {
        assert(cut =~= w.log.take(m));
        law_cut_log_holds_first_records(w.log, m);
    } else {
        law_torn_record_is_not_read(w.log, c, m);
    }
    assert(q.is_prefix_of(full));
    assert(log.is_prefix_of(all)) by {
        assert(log =~= w.log.take(log.len() as int));
        assert(log =~= all.take(log.len() as int));
    }
    lemma_cut_goes_on(log, all, m);
    let tail = q.skip(base.len() as int);
    assert(q =~= base + tail);
    assert forall|i: int| 0 <= i < tail.len() implies #[trigger] tail[i] == full[base.len() + i] by {
        assert(tail[i] == q[base.len() + i]);
    }
    assert forall|i: int| 0 <= i < tail.len() implies (#[trigger] tail[i]).txn() == Some(txn) && !(
    tail[i] is Commit) by {
        assert(tail[i] == full[base.len() + i]);
    }
    if inserts_none(log, w) {
        assert forall|i: int| 0 <= i < tail.len() implies !(#[trigger] tail[i] is Insert) by {
            assert(tail[i] == full[base.len() + i]);
        }
    }
    tail
}

proof fn lemma_skip_none(pages: Map<u32, Seq<u8>>, tail: Seq<LogView>, n: nat)
    requires
        n <= tail.len(),
        forall|i: int| 0 <= i < tail.len() ==> !(#[trigger] tail[i] is Insert),
    ensures
        skip_all(pages, tail, n) == pages,
    decreases n,
{
    if n > 0 {
        lemma_skip_none(pages, tail, (n - 1) as nat);
        assert(!(tail[n - 1] is Insert));
    }
}

/// A state with a log that goes on with a transaction that did not commit is durable.
proof fn lemma_cut_durable(db: DbView, x: DbView, tail: Seq<LogView>)
    requires
        durable(db),
        db.wal.next_txn < u32::MAX,
        heap_ok(x),
        filed(x),
        entry_names(x.tables) == table_names(x.catalog.tables),
        whole(x.wal.log),
        x.wal.pages == db.wal.pages,
        x.wal.next_txn == db.wal.next_txn + 1,
        log_records(x.wal.log) == log_records(db.wal.log) + tail,
        forall|i: int|
            0 <= i < tail.len() ==> (#[trigger] tail[i]).txn() == Some(db.wal.next_txn) && !(
            tail[i] is Commit),
        made_listed(x),
        ({
            let made = skip_all(recovered(log_records(db.wal.log)), tail, tail.len());
            forall|i: int, k: int|
                0 <= i < x.tables.len() && 0 <= k < x.tables[i].pages.len() ==> x.pages[
                #[trigger] x.tables[i].pages[k]] == Ok::<Seq<u8>, StorageError>(
                    page_body(page_or_blank(made, x.tables[i].pages[k])),
                )
        }),
    ensures
        durable(x),
{
    let base = log_records(db.wal.log);
    let txn = db.wal.next_txn;
    assert forall|i: int| 0 <= i < base.len() implies (#[trigger] base[i]).txn() != Some(txn) by {}
    law_cut_off_transaction_is_left_out(base, tail, txn);
    let all = base + tail;
    assert forall|i: int| 0 <= i < all.len() implies ((#[trigger] all[i]).txn() matches Some(id)
        ==> id < x.wal.next_txn) by {
        if i < base.len() {
            assert(all[i] == base[i]);
        } else {
            assert(all[i] == tail[i - base.len()]);
        }
    }
}

/// The rows of a state that is durable are those after a restart from its files, also where the log
/// has a record more that was cut short.
proof fn lemma_crash_restart(
    db: DbView,
    x: DbView,
    cut: Seq<u8>,
    file: Seq<Seq<u8>>,
)
    requires
        durable(x),
        x.catalog == db.catalog,
        x.catalog_file == db.catalog_file,
        x.wal.log == whole_part(cut),
        on_file(crashed(db, cut, x.meta_files, file), file),
        forall|table: Seq<char>| #[trigger] all_rows(x, table) == all_rows(db, table),
    ensures
        durable(crashed(db, cut, x.meta_files, file)),
        forall|table: Seq<char>| #[trigger]
            all_rows(crashed(db, cut, x.meta_files, file), table) == all_rows(db, table),
{
    law_torn_log_opens_alike(file, cut, db.catalog_file, x.meta_files);
    let c = crashed(db, cut, x.meta_files, file);
    assert(c == restarted(x, file));
    lemma_tables_back(x, file);
    law_torn_record_is_dropped(cut);
    law_torn_record_is_dropped(x.wal.log);
    assert(on_file(x, file)) by {
        assert(c.tables == x.tables);
        assert(c.wal.log == x.wal.log);
    }
    law_committed_rows_survive_restart(x, file);
    assert forall|table: Seq<char>| #[trigger] all_rows(c, table) == all_rows(db, table) by {
        assert(all_rows(x, table) == all_rows(db, table));
    }
}

/// A crash after which the log has no insertion of the statement.
proof fn lemma_crash_plain(db: DbView, cut: Seq<u8>, tail: Seq<LogView>, file: Seq<Seq<u8>>)
    requires
        durable(db),
        db.wal.next_txn < u32::MAX,
        log_records(cut) == log_records(db.wal.log) + tail,
        forall|i: int|
            0 <= i < tail.len() ==> (#[trigger] tail[i]).txn() == Some(db.wal.next_txn) && !(
            tail[i] is Commit),
        forall|i: int| 0 <= i < tail.len() ==> !(#[trigger] tail[i] is Insert),
        on_file(crashed(db, cut, db.meta_files, file), file),
    ensures
        durable(crashed(db, cut, db.meta_files, file)),
        forall|table: Seq<char>| #[trigger]
            all_rows(crashed(db, cut, db.meta_files, file), table) == all_rows(db, table),
{
    let base = log_records(db.wal.log);
    law_torn_record_is_dropped(cut);
    let x = DbView {
        wal: WalView {
            log: whole_part(cut),
            next_txn: (db.wal.next_txn + 1) as u32,
            ..db.wal
        },
        ..db
    };
    lemma_skip_none(recovered(base), tail, tail.len());
    assert forall|i: int| 0 <= i < base.len() implies (#[trigger] base[i]).txn() != Some(
        db.wal.next_txn,
    ) by {}
    law_cut_off_transaction_is_left_out(base, tail, db.wal.next_txn);
    assert(recovered(base) == replayed(db.wal.log, committed_set(base)));
    lemma_same_durable(db, x);
    assert forall|i: int, k: int|
        0 <= i < x.tables.len() && 0 <= k < x.tables[i].pages.len() implies x.pages[
    #[trigger] x.tables[i].pages[k]] == Ok::<Seq<u8>, StorageError>(
        page_body(page_or_blank(recovered(base), x.tables[i].pages[k])),
    ) by {
        assert(db.pages[db.tables[i].pages[k]] == x.pages[x.tables[i].pages[k]]);
    }
    lemma_cut_durable(db, x, tail);
    assert forall|table: Seq<char>| #[trigger] all_rows(x, table) == all_rows(db, table) by {
        lemma_same_rows(db, x, table);
    }
    lemma_crash_restart(db, x, cut, file);
}

/// What a durable state is made of but for the log.
proof fn lemma_same_durable(db: DbView, x: DbView)
    requires
        durable(db),
        x == (DbView { wal: x.wal, ..db }),
    ensures
        heap_ok(x),
        filed(x),
{
    assert forall|i: int, k: int|
        0 <= i < x.tables.len() && 0 <= k < x.tables[i].pages.len() implies page_good(
        x,
        #[trigger] x.tables[i].pages[k],
    ) by {
        assert(page_good(db, db.tables[i].pages[k]));
    }
}

/// Two states that differ in the log return the same rows.
proof fn lemma_same_rows(db: DbView, x: DbView, table: Seq<char>)
    requires
        heap_ok(db),
        heap_ok(x),
        x == (DbView { wal: x.wal, ..db }),
    ensures
        all_rows(x, table) == all_rows(db, table),
{
    if db.catalog.get(table) is Some {
        law_select_reads_table(db, table, SelectView::Star);
        law_select_reads_table(x, table, SelectView::Star);
    }
}

// Inserting.

/// A page in which a tuple that is left out takes a slot reads as before.
proof fn lemma_skip_page(p: Seq<u8>, d: Seq<u8>, t: Seq<u8>)
    requires
        p.len() == PAGE_SIZE,
        page_body(p) == d,
        page_wf(d),
    ensures
        ({
            let e = page_body(page_try_skip(p, t));
            &&& page_wf(e)
            &&& page_body(e) == e
            &&& page_count(d) <= page_count(e) <= page_count(d) + 1
            &&& forall|i: int| #[trigger] page_get(e, i) == page_get(d, i)
        }),
{
    assert(page_body(d) =~= d);
    law_body_reads(p, d);
    law_body_wf(d, p);
    let q = page_try_skip(p, t);
    let e = page_body(q);
    let n = page_count(p);
    if page_fits(p, t.len()) {
        law_insert(p, t);
        law_delete(page_put(p, t), n as int);
        assert forall|i: int| #[trigger] page_get(q, i) == page_get(p, i) by {
            if i == n {
                assert(page_get(p, i) is None);
            } else {
                assert(page_get(page_put(p, t), i) == page_get(p, i));
            }
        }
    }
    assert(page_body(e) =~= e);
    law_body_reads(q, e);
    law_body_wf(q, e);
    assert forall|i: int| #[trigger] page_get(e, i) == page_get(d, i) by {
        assert(page_get(q, i) == page_get(e, i));
        assert(page_get(p, i) == page_get(d, i));
        assert(page_get(q, i) == page_get(p, i));
    }
}

/// Pages that read alike hold the same rows.
proof fn lemma_page_alike(id: u32, d: Seq<u8>, e: Seq<u8>, n: nat)
    requires
        forall|i: int| #[trigger] page_get(e, i) == page_get(d, i),
    ensures
        page_cells(id, e, n) == page_cells(id, d, n),
        n == page_count(d) + 1 ==> page_cells(id, d, n) == page_cells(id, d, page_count(d) as nat),
    decreases n,
{
    if n > 0 {
        lemma_page_alike(id, d, e, (n - 1) as nat);
        assert(page_get(e, n - 1) == page_get(d, n - 1));
    }
}

proof fn lemma_cells_alike(
    a: Map<u32, Result<Seq<u8>, StorageError>>,
    b: Map<u32, Result<Seq<u8>, StorageError>>,
    ids: Seq<u32>,
    n: nat,
)
    requires
        n <= ids.len(),
        forall|k: int|
            0 <= k < n ==> {
                let d = a[#[trigger] ids[k]]->Ok_0;
                let e = b[ids[k]]->Ok_0;
                &&& page_count(d) <= page_count(e) <= page_count(d) + 1
                &&& forall|i: int| #[trigger] page_get(e, i) == page_get(d, i)
            },
    ensures
        cells_upto(b, ids, n) == cells_upto(a, ids, n),
    decreases n,
{
    if n > 0 {
        lemma_cells_alike(a, b, ids, (n - 1) as nat);
        let d = a[ids[n - 1]]->Ok_0;
        let e = b[ids[n - 1]]->Ok_0;
        lemma_page_alike(ids[n - 1], d, e, page_count(e) as nat);
    }
}

/// The two records that an INSERT writes before its commit, or the first of them.
proof fn lemma_insert_tail(
    base: Seq<LogView>,
    tail: Seq<LogView>,
    begin: LogView,
    ins: LogView,
    pages: Map<u32, Seq<u8>>,
)
    requires
        (base + tail).is_prefix_of(base.push(begin).push(ins)),
        begin is Begin,
        ins is Insert,
    ensures
        (forall|i: int| 0 <= i < tail.len() ==> !(#[trigger] tail[i] is Insert)) || skip_all(
            pages,
            tail,
            tail.len(),
        ) == pages.insert(
            ins->Insert_page_id,
            page_try_skip(page_or_blank(pages, ins->Insert_page_id), ins->Insert_data),
        ),
{
    let all = base.push(begin).push(ins);
    let q = base + tail;
    assert forall|i: int| 0 <= i < tail.len() implies #[trigger] tail[i] == all[base.len() + i] by {
        assert(tail[i] == q[base.len() + i]);
    }
    if tail.len() == 2 {
        assert(tail[0] == begin);
        assert(tail[1] == ins);
        reveal_with_fuel(skip_all, 3);
    } else {
        assert forall|i: int| 0 <= i < tail.len() implies !(#[trigger] tail[i] is Insert) by {
            assert(tail[i] == begin);
        }
    }
}

/// A crash after an insertion into a page of the table was logged.
proof fn lemma_crash_at(
    db: DbView,
    cut: Seq<u8>,
    tail: Seq<LogView>,
    table: Seq<char>,
    id: u32,
    t: Seq<u8>,
    file: Seq<Seq<u8>>,
)
    requires
        durable(db),
        db.wal.next_txn < u32::MAX,
        log_records(cut) == log_records(db.wal.log) + tail,
        forall|i: int|
            0 <= i < tail.len() ==> (#[trigger] tail[i]).txn() == Some(db.wal.next_txn) && !(
            tail[i] is Commit),
        table_pages(db.tables, table) is Some,
        (table_pages(db.tables, table)->0).contains(id),
        ({
            let made = recovered(log_records(db.wal.log));
            skip_all(made, tail, tail.len()) == made.insert(
                id,
                page_try_skip(page_or_blank(made, id), t),
            )
        }),
        on_file(crashed(db, cut, db.meta_files, file), file),
    ensures
        durable(crashed(db, cut, db.meta_files, file)),
        forall|other: Seq<char>| #[trigger]
            all_rows(crashed(db, cut, db.meta_files, file), other) == all_rows(db, other),
{
    let base = log_records(db.wal.log);
    let made = recovered(base);
    law_torn_record_is_dropped(cut);
    lemma_listed_page(db, table, id, committed_set(base));
    let p = page_or_blank(made, id);
    let d = db.pages[id]->Ok_0;
    let e = page_body(page_try_skip(p, t));
    lemma_skip_page(p, d, t);
    let x = DbView {
        wal: WalView {
            log: whole_part(cut),
            next_txn: (db.wal.next_txn + 1) as u32,
            ..db.wal
        },
        pages: db.pages.insert(id, Ok(e)),
        ..db
    };
    lemma_heap_page(db, x, id, e);
    assert forall|i: int| 0 <= i < base.len() implies (#[trigger] base[i]).txn() != Some(
        db.wal.next_txn,
    ) by {}
    law_cut_off_transaction_is_left_out(base, tail, db.wal.next_txn);
    let now = skip_all(made, tail, tail.len());
    assert forall|o: u32| #[trigger] recovered(log_records(x.wal.log)).contains_key(o) implies listed(
        x.tables,
        o,
    ) by {
        if o != id {
            assert(made.contains_key(o));
        }
    }
    assert forall|i: int, k: int|
        0 <= i < x.tables.len() && 0 <= k < x.tables[i].pages.len() implies x.pages[
    #[trigger] x.tables[i].pages[k]] == Ok::<Seq<u8>, StorageError>(
        page_body(page_or_blank(now, x.tables[i].pages[k])),
    ) by {
        let o = db.tables[i].pages[k];
        assert(db.pages[db.tables[i].pages[k]] == Ok::<Seq<u8>, StorageError>(
            page_body(page_or_blank(made, o)),
        ));
    }
    lemma_cut_durable(db, x, tail);
    assert forall|other: Seq<char>| #[trigger] all_rows(x, other) == all_rows(db, other) by {
        if db.catalog.get(other) is Some {
            law_select_reads_table(db, other, SelectView::Star);
            law_select_reads_table(x, other, SelectView::Star);
            let ids = table_pages(db.tables, other)->0;
            lemma_cells_alike(db.pages, x.pages, ids, ids.len());
        }
    }
    lemma_crash_restart(db, x, cut, file);
}

/// A crash while an INSERT gives its table a new page, after the page lists were written.
proof fn lemma_crash_new(
    db: DbView,
    cut: Seq<u8>,
    tail: Seq<LogView>,
    table: Seq<char>,
    row: RowView,
    file: Seq<Seq<u8>>,
)
    requires
        durable(db),
        db.num_pages < u32::MAX,
        db.wal.next_txn < u32::MAX,
        insert(db, table, row).1 is Ok,
        insert(db, table, row).0.num_pages == db.num_pages + 1,
        log_records(cut) == log_records(db.wal.log) + tail,
        forall|i: int|
            0 <= i < tail.len() ==> (#[trigger] tail[i]).txn() == Some(db.wal.next_txn) && !(
            tail[i] is Commit),
        ({
            let made = recovered(log_records(db.wal.log));
            let t = serialized((db.catalog.get(table)->0).columns, row)->Ok_0;
            let now = skip_all(made, tail, tail.len());
            now == made || now == made.insert(
                db.num_pages,
                page_try_skip(page_or_blank(made, db.num_pages), t),
            )
        }),
        on_file(crashed(db, cut, insert(db, table, row).0.meta_files, file), file),
    ensures
        durable(crashed(db, cut, insert(db, table, row).0.meta_files, file)),
        forall|other: Seq<char>| #[trigger]
            all_rows(crashed(db, cut, insert(db, table, row).0.meta_files, file), other)
                == all_rows(db, other),
{
    let base = log_records(db.wal.log);
    let made = recovered(base);
    let now = skip_all(made, tail, tail.len());
    let after = insert(db, table, row).0;
    let id = db.num_pages;
    let t = serialized((db.catalog.get(table)->0).columns, row)->Ok_0;
    let ids = table_pages(db.tables, table)->0;
    let k0 = lemma_insert_outcome(db, table, row);
    lemma_insert_wal(db, table, row);
    lemma_insert_filed(db, table, row);
    lemma_insert_names(db, table, row);
    law_tables_stay_in_order(db, StatementView::Insert { table, values: row });
    law_torn_record_is_dropped(cut);
    lemma_unmade(db);
    let blank = page_blank(id);
    law_blank(id);
    let d = page_body(blank);
    assert(page_body(d) =~= d);
    law_body_wf(blank, d);
    law_body_reads(blank, d);
    lemma_skip_page(blank, d, t);
    let e = page_body(page_or_blank(now, id));
    let x = DbView {
        wal: WalView {
            log: whole_part(cut),
            next_txn: (db.wal.next_txn + 1) as u32,
            ..db.wal
        },
        pages: db.pages.insert(id, Ok(e)),
        tables: after.tables,
        num_pages: after.num_pages,
        meta_files: after.meta_files,
        ..db
    };
    assert(x.pages =~= after.pages.insert(id, Ok(e)));
    lemma_heap_page(after, x, id, e);
    assert forall|i: int| 0 <= i < base.len() implies (#[trigger] base[i]).txn() != Some(
        db.wal.next_txn,
    ) by {}
    law_cut_off_transaction_is_left_out(base, tail, db.wal.next_txn);
    let i0 = lemma_list(db.tables, table);
    assert forall|o: u32| #[trigger] recovered(log_records(x.wal.log)).contains_key(o) implies listed(
        x.tables,
        o,
    ) by {
        if o == id {
            assert(x.tables[i0].pages[ids.len() as int] == id);
        } else {
            assert(made.contains_key(o));
            let (i, k) = choose|i: int, k: int|
                0 <= i < db.tables.len() && 0 <= k < db.tables[i].pages.len()
                    && #[trigger] db.tables[i].pages[k] == o;
            assert(x.tables[i].pages[k] == o);
        }
    }
    assert forall|i: int, k: int|
        0 <= i < x.tables.len() && 0 <= k < x.tables[i].pages.len() implies x.pages[
    #[trigger] x.tables[i].pages[k]] == Ok::<Seq<u8>, StorageError>(
        page_body(page_or_blank(now, x.tables[i].pages[k])),
    ) by {
        if i != i0 || k < ids.len() {
            let o = db.tables[i].pages[k];
            assert(x.tables[i].pages[k] == o);
            assert(page_good(db, db.tables[i].pages[k]));
            assert(db.pages[db.tables[i].pages[k]] == Ok::<Seq<u8>, StorageError>(
                page_body(page_or_blank(made, o)),
            ));
        }
    }
    lemma_cut_durable(db, x, tail);
    assert forall|other: Seq<char>| #[trigger] all_rows(x, other) == all_rows(db, other) by {
        if db.catalog.get(other) is Some {
            law_select_reads_table(db, other, SelectView::Star);
            law_select_reads_table(x, other, SelectView::Star);
            lemma_listed(db, other);
            lemma_good_list(db, other);
            lemma_tables_put(db.tables, table, ids.push(id), other);
            let theirs = table_pages(db.tables, other)->0;
            assert forall|l: int| 0 <= l < theirs.len() implies x.pages[#[trigger] theirs[l]]
                == db.pages[theirs[l]] by {
                assert(page_good(db, theirs[l]));
            }
            lemma_cells_same(x.pages, db.pages, theirs, theirs.len());
            if other == table {
                lemma_grown_cells(x, ids, id, d, e);
            }
        }
    }
    lemma_crash_restart(db, x, cut, file);
}

/// The log makes no page beyond those that are allocated.
pub proof fn lemma_unmade(db: DbView)
    requires
        durable(db),
    ensures
        !recovered(log_records(db.wal.log)).contains_key(db.num_pages),
{
    let id = db.num_pages;
    let base = log_records(db.wal.log);
    assert(recovered(base) == replayed(db.wal.log, committed_set(base)));
    if listed(db.tables, id) {
        let (i, k) = choose|i: int, k: int|
            0 <= i < db.tables.len() && 0 <= k < db.tables[i].pages.len()
                && #[trigger] db.tables[i].pages[k] == id;
        assert(page_good(db, db.tables[i].pages[k]));
    }
}

/// A page without rows adds none.
proof fn lemma_grown_cells(x: DbView, ids: Seq<u32>, id: u32, d: Seq<u8>, e: Seq<u8>)
    requires
        x.pages[id] == Ok::<Seq<u8>, StorageError>(e),
        page_count(d) == 0,
        page_count(e) <= 1,
        forall|i: int| #[trigger] page_get(e, i) == page_get(d, i),
    ensures
        cells_upto(x.pages, ids.push(id), ids.len() + 1) == cells_upto(x.pages, ids, ids.len()),
{
    let now = ids.push(id);
    assert forall|k: int| 0 <= k < ids.len() implies now[k] == ids[k] by {}
    lemma_cells_prefix(x, ids, id, ids.len());
    lemma_page_alike(id, d, e, page_count(e) as nat);
    assert(now[ids.len() as int] == id);
    assert(page_cells(id, e, page_count(e) as nat) =~= Seq::empty());
}

proof fn lemma_cells_prefix(x: DbView, ids: Seq<u32>, id: u32, n: nat)
    requires
        n <= ids.len(),
    ensures
        cells_upto(x.pages, ids.push(id), n) == cells_upto(x.pages, ids, n),
    decreases n,
{
    if n > 0 {
        lemma_cells_prefix(x, ids, id, (n - 1) as nat);
        assert(ids.push(id)[n - 1] == ids[n - 1]);
    }
}

/// The log of a statement that has only begun.
proof fn lemma_begun_open(db: DbView)
    requires
        durable(db),
    ensures
        open_end(db.wal.log, db.wal, db.wal.next_txn),
        inserts_none(db.wal.log, db.wal),
        open_end(db.wal.log, wal_begin(db.wal), db.wal.next_txn),
        inserts_none(db.wal.log, wal_begin(db.wal)),
        log_records(wal_begin(db.wal).log) == log_records(db.wal.log).push(
            LogView::Begin { lsn: db.wal.lsn, txn_id: db.wal.next_txn },
        ),
{
    let r = LogView::Begin { lsn: 0, txn_id: db.wal.next_txn };
    lemma_record_len(r);
    lemma_open_append(db.wal.log, db.wal, wal_begin(db.wal), r, db.wal.next_txn);
}

/// A crash in the middle of an INSERT that would have gone well.
proof fn lemma_crash_insert(
    db: DbView,
    table: Seq<char>,
    row: RowView,
    m: int,
    metas: Seq<(Seq<char>, Seq<u8>)>,
    file: Seq<Seq<u8>>,
)
    requires
        durable(db),
        db.num_pages < u32::MAX,
        db.wal.next_txn < u32::MAX,
        insert(db, table, row).1 is Ok,
        db.wal.log.len() <= m < insert(db, table, row).0.wal.log.len(),
        metas == db.meta_files || metas == insert(db, table, row).0.meta_files,
        ({
            let c = crashed(db, insert(db, table, row).0.wal.log.take(m), metas, file);
            made_listed(c) && on_file(c, file)
        }),
    ensures
        ({
            let c = crashed(db, insert(db, table, row).0.wal.log.take(m), metas, file);
            &&& durable(c)
            &&& forall|other: Seq<char>| #[trigger] all_rows(c, other) == all_rows(db, other)
        }),
{
    let base = log_records(db.wal.log);
    let made = recovered(base);
    let txn = db.wal.next_txn;
    let begun = wal_begin(db.wal);
    let after = insert(db, table, row).0;
    let cut = after.wal.log.take(m);
    let t = serialized((db.catalog.get(table)->0).columns, row)->Ok_0;
    let ids = table_pages(db.tables, table)->0;
    let k = lemma_insert_outcome(db, table, row);
    lemma_insert_wal(db, table, row);
    let id = insert_rid(db, table, t.len()).page_id;
    let put = wal_insert(begun, txn, id, t);
    let begin = LogView::Begin { lsn: db.wal.lsn, txn_id: txn };
    let ins = insert_record(begun, txn, id, t);
    let end = LogView::Commit { lsn: 0, txn_id: txn };
    lemma_record_len(ins);
    lemma_record_len(end);
    lemma_record_len(end.numbered(put.lsn));
    lemma_begun_open(db);
    assert(all_sized(put.pages)) by {
        law_blank(id);
    }
    lemma_open_append(db.wal.log, begun, put, ins, txn);
    let tail = lemma_cut_tail(db.wal.log, put, end.numbered(put.lsn), m, txn);
    lemma_insert_tail(base, tail, begin, ins.numbered(begun.lsn), made);
    if forall|i: int| 0 <= i < tail.len() ==> !(#[trigger] tail[i] is Insert) {
        lemma_skip_none(made, tail, tail.len());
        if metas == db.meta_files {
            lemma_crash_plain(db, cut, tail, file);
        } else {
            lemma_crash_new(db, cut, tail, table, row, file);
        }
    } else if 0 <= k {
        assert(ids.contains(ids[k]));
        assert(after.meta_files == db.meta_files);
        lemma_crash_at(db, cut, tail, table, id, t, file);
    } else {
        if metas == db.meta_files {
            lemma_unlisted(db, cut, tail, file);
        }
        lemma_crash_new(db, cut, tail, table, row, file);
    }
}

/// A page beyond those that are allocated is in no page list that was written before.
proof fn lemma_unlisted(db: DbView, cut: Seq<u8>, tail: Seq<LogView>, file: Seq<Seq<u8>>)
    requires
        durable(db),
        log_records(cut) == log_records(db.wal.log) + tail,
        forall|i: int|
            0 <= i < tail.len() ==> (#[trigger] tail[i]).txn() == Some(db.wal.next_txn) && !(
            tail[i] is Commit),
        skip_all(recovered(log_records(db.wal.log)), tail, tail.len()).contains_key(db.num_pages),
    ensures
        !made_listed(crashed(db, cut, db.meta_files, file)),
{
    let base = log_records(db.wal.log);
    let c = crashed(db, cut, db.meta_files, file);
    assert forall|i: int| 0 <= i < base.len() implies (#[trigger] base[i]).txn() != Some(
        db.wal.next_txn,
    ) by {}
    law_cut_off_transaction_is_left_out(base, tail, db.wal.next_txn);
    law_torn_record_is_dropped(cut);
    lemma_tables_back(db, file);
    assert(c.tables == db.tables);
    let id = db.num_pages;
    assert(recovered(log_records(c.wal.log)).contains_key(id));
    if listed(db.tables, id) {
        let (i, k) = choose|i: int, k: int|
            0 <= i < db.tables.len() && 0 <= k < db.tables[i].pages.len()
                && #[trigger] db.tables[i].pages[k] == id;
        assert(page_good(db, db.tables[i].pages[k]));
    }
}

/// A crash in the middle of an UPDATE or a DELETE.
proof fn lemma_crash_sweep(
    db: DbView,
    table: Seq<char>,
    filter: Option<ExprView>,
    set: Option<Seq<AssignmentView>>,
    m: int,
    file: Seq<Seq<u8>>,
)
    requires
        durable(db),
        db.wal.next_txn < u32::MAX,
        db.wal.log.len() <= m < sweep(db, table, filter, set).0.wal.log.len(),
        on_file(
            crashed(db, sweep(db, table, filter, set).0.wal.log.take(m), db.meta_files, file),
            file,
        ),
    ensures
        ({
            let cut = sweep(db, table, filter, set).0.wal.log.take(m);
            let c = crashed(db, cut, db.meta_files, file);
            &&& durable(c)
            &&& forall|other: Seq<char>| #[trigger] all_rows(c, other) == all_rows(db, other)
        }),
{
    let txn = db.wal.next_txn;
    let cut = sweep(db, table, filter, set).0.wal.log.take(m);
    let begun = DbView { wal: wal_begin(db.wal), ..db };
    lemma_begun_open(db);
    if sweep(db, table, filter, set).1 is Err {
        law_failed_sweep_changes_nothing(db, table, filter, set);
        let end = LogView::Abort { lsn: 0, txn_id: txn };
        lemma_record_len(end.numbered(begun.wal.lsn));
        let tail = lemma_cut_tail(db.wal.log, begun.wal, end.numbered(begun.wal.lsn), m, txn);
        lemma_crash_plain(db, cut, tail, file);
    } else {
        let s = sweep_of(db, table, filter, set);
        let ids = table_pages(db.tables, table)->0;
        let v = sweep_pages(begun, s, ids, ids.len());
        lemma_pages_open(db.wal.log, begun, s, ids, ids.len());
        let end = LogView::Commit { lsn: 0, txn_id: txn };
        lemma_record_len(end.numbered(v.wal.lsn));
        let tail = lemma_cut_tail(db.wal.log, v.wal, end.numbered(v.wal.lsn), m, txn);
        lemma_crash_plain(db, cut, tail, file);
    }
}

proof fn lemma_sweep_files(
    db: DbView,
    table: Seq<char>,
    filter: Option<ExprView>,
    set: Option<Seq<AssignmentView>>,
)
    ensures
        sweep(db, table, filter, set).0.meta_files == db.meta_files,
        sweep(db, table, filter, set).0.tables == db.tables,
{
    if db.catalog.get(table) is Some {
        let begun = DbView { wal: wal_begin(db.wal), ..db };
        let ids = table_pages(db.tables, table)->0;
        lemma_pages_files(begun, sweep_of(db, table, filter, set), ids, ids.len());
    }
}

proof fn lemma_pages_files(db: DbView, s: Sweep, ids: Seq<u32>, n: nat)
    ensures
        sweep_pages(db, s, ids, n).meta_files == db.meta_files,
        sweep_pages(db, s, ids, n).tables == db.tables,
    decreases n,
{
    if n > 0 {
        lemma_pages_files(db, s, ids, (n - 1) as nat);
    }
}

/// If the log is cut off anywhere before the end of what a statement writes to it, nothing of the
/// statement is left: opening the files again and recovering gives every table the rows that it had
/// before the statement, and they outlive further statements and restarts. The page lists may be those
/// from before the statement or those from after it, as long as they have the pages that the log
/// makes.
pub proof fn law_crash_leaves_nothing_of_a_statement(
    db: DbView,
    stmt: StatementView,
    m: int,
    metas: Seq<(Seq<char>, Seq<u8>)>,
    file: Seq<Seq<u8>>,
)
    requires
        durable(db),
        db.num_pages < u32::MAX,
        db.wal.next_txn < u32::MAX,
        db.wal.log.len() <= m < execute(db, stmt).0.wal.log.len(),
        metas == db.meta_files || metas == execute(db, stmt).0.meta_files,
        ({
            let c = crashed(db, execute(db, stmt).0.wal.log.take(m), metas, file);
            made_listed(c) && on_file(c, file)
        }),
    ensures
        ({
            let c = crashed(db, execute(db, stmt).0.wal.log.take(m), metas, file);
            &&& durable(c)
            &&& forall|table: Seq<char>| #[trigger] all_rows(c, table) == all_rows(db, table)
        }),
{
    match stmt {
        StatementView::CreateTable { table, columns } => {},
        StatementView::Select { .. } => {},
        StatementView::Insert { table, values } => {
            if execute(db, stmt).1 is Ok {
                lemma_crash_insert(db, table, values, m, metas, file);
            } else {
                let after = execute(db, stmt).0;
                let begin = LogView::Begin { lsn: db.wal.lsn, txn_id: db.wal.next_txn };
                assert(after.meta_files == db.meta_files);
                assert(after.wal.log == wal_begin(db.wal).log);
                lemma_record_len(begin);
                lemma_begun_open(db);
                let tail = lemma_cut_tail(db.wal.log, db.wal, begin, m, db.wal.next_txn);
                lemma_crash_plain(db, after.wal.log.take(m), tail, file);
            }
        },
        StatementView::Delete { table, filter } => {
            lemma_sweep_files(db, table, filter, None);
            lemma_crash_sweep(db, table, filter, None, m, file);
        },
        StatementView::Update { table, assignments, filter } => {
            lemma_sweep_files(db, table, filter, Some(assignments));
            lemma_crash_sweep(db, table, filter, Some(assignments), m, file);
        },
    }
}

// Pages and the log.

/// The log has an insertion into page `id`.
pub open spec fn has_insertion(records: Seq<LogView>, id: u32) -> bool {
    exists|j: int|
        0 <= j < records.len() && (#[trigger] records[j] matches LogView::Insert { page_id, .. }
            && page_id == id)
}

/// Every page of the tables has an insertion in the log.
pub open spec fn all_inserted(db: DbView) -> bool {
    forall|i: int, k: int|
        0 <= i < db.tables.len() && 0 <= k < db.tables[i].pages.len() ==> has_insertion(
            log_records(db.wal.log),
            #[trigger] db.tables[i].pages[k],
        )
}

proof fn lemma_insertion_makes(records: Seq<LogView>, done: Set<u32>, n: nat, j: int)
    requires
        0 <= j < n <= records.len(),
        records[j] is Insert,
    ensures
        redo_in(records, done, n).contains_key(records[j]->Insert_page_id),
    decreases n,
{
    if j < n - 1 {
        lemma_insertion_makes(records, done, (n - 1) as nat, j);
    }
}

/// If every page of the tables has an insertion in the log, recovery makes all of them, whatever is
/// on the database file.
pub proof fn law_inserted_pages_are_made(db: DbView, file: Seq<Seq<u8>>)
    requires
        all_inserted(db),
    ensures
        forall|i: int, k: int|
            0 <= i < db.tables.len() && 0 <= k < db.tables[i].pages.len() ==> recovered(
                log_records(db.wal.log),
            ).contains_key(#[trigger] db.tables[i].pages[k]),
        unlogged_empty(db, file),
{
    let records = log_records(db.wal.log);
    assert forall|i: int, k: int|
        0 <= i < db.tables.len() && 0 <= k < db.tables[i].pages.len() implies recovered(
        records,
    ).contains_key(#[trigger] db.tables[i].pages[k]) by {
        let id = db.tables[i].pages[k];
        assert(has_insertion(records, db.tables[i].pages[k]));
        let j = choose|j: int|
            0 <= j < records.len() && (#[trigger] records[j] matches LogView::Insert {
                page_id,
                ..
            } && page_id == id);
        lemma_insertion_makes(records, committed_set(records), records.len(), j);
    }
}

/// A log that goes on has the insertions that it had.
proof fn lemma_insertions_stay(base: Seq<LogView>, now: Seq<LogView>, id: u32)
    requires
        has_insertion(base, id),
        base.len() <= now.len(),
        forall|i: int| 0 <= i < base.len() ==> #[trigger] now[i] == base[i],
    ensures
        has_insertion(now, id),
{
    let j = choose|j: int|
        0 <= j < base.len() && (#[trigger] base[j] matches LogView::Insert { page_id, .. }
            && page_id == id);
    assert(now[j] == base[j]);
}

/// The records that a statement leaves are those that it found, with its own after them.
proof fn lemma_statement_appends(db: DbView, stmt: StatementView)
    requires
        durable(db),
        db.num_pages < u32::MAX,
        db.wal.next_txn < u32::MAX,
    ensures
        ({
            let base = log_records(db.wal.log);
            let now = log_records(execute(db, stmt).0.wal.log);
            &&& base.len() <= now.len()
            &&& forall|i: int| 0 <= i < base.len() ==> #[trigger] now[i] == base[i]
        }),
{
    lemma_begun_open(db);
    match stmt {
        StatementView::CreateTable { table, columns } => {},
        StatementView::Select { .. } => {},
        StatementView::Insert { table, values } => {
            if execute(db, stmt).1 is Ok {
                lemma_insert_records(db, table, values);
            }
        },
        StatementView::Delete { table, filter } => {
            lemma_sweep_appends(db, table, filter, None);
        },
        StatementView::Update { table, assignments, filter } => {
            lemma_sweep_appends(db, table, filter, Some(assignments));
        },
    }
}

proof fn lemma_sweep_appends(
    db: DbView,
    table: Seq<char>,
    filter: Option<ExprView>,
    set: Option<Seq<AssignmentView>>,
)
    requires
        durable(db),
        db.wal.next_txn < u32::MAX,
    ensures
        ({
            let base = log_records(db.wal.log);
            let now = log_records(sweep(db, table, filter, set).0.wal.log);
            &&& base.len() <= now.len()
            &&& forall|i: int| 0 <= i < base.len() ==> #[trigger] now[i] == base[i]
        }),
{
    let txn = db.wal.next_txn;
    let begun = DbView { wal: wal_begin(db.wal), ..db };
    lemma_begun_open(db);
    if sweep(db, table, filter, set).1 is Err {
        law_failed_sweep_changes_nothing(db, table, filter, set);
        let end = LogView::Abort { lsn: 0, txn_id: txn };
        lemma_record_len(end.numbered(begun.wal.lsn));
        law_append_reads_back(begun.wal.log, end.numbered(begun.wal.lsn));
    } else {
        let s = sweep_of(db, table, filter, set);
        let ids = table_pages(db.tables, table)->0;
        let v = sweep_pages(begun, s, ids, ids.len());
        lemma_pages_open(db.wal.log, begun, s, ids, ids.len());
        let end = LogView::Commit { lsn: 0, txn_id: txn };
        lemma_record_len(end.numbered(v.wal.lsn));
        law_append_reads_back(v.wal.log, end.numbered(v.wal.lsn));
    }
}

/// The records of an INSERT.
proof fn lemma_insert_records(db: DbView, table: Seq<char>, row: RowView)
    requires
        durable(db),
        db.num_pages < u32::MAX,
        db.wal.next_txn < u32::MAX,
        insert(db, table, row).1 is Ok,
    ensures
        ({
            let base = log_records(db.wal.log);
            let now = log_records(insert(db, table, row).0.wal.log);
            let t = serialized((db.catalog.get(table)->0).columns, row)->Ok_0;
            &&& now.len() == base.len() + 3
            &&& forall|i: int| 0 <= i < base.len() ==> #[trigger] now[i] == base[i]
            &&& has_insertion(now, insert_rid(db, table, t.len()).page_id)
        }),
{
    let base = log_records(db.wal.log);
    let txn = db.wal.next_txn;
    let begun = wal_begin(db.wal);
    let t = serialized((db.catalog.get(table)->0).columns, row)->Ok_0;
    let k = lemma_insert_outcome(db, table, row);
    lemma_insert_wal(db, table, row);
    let id = insert_rid(db, table, t.len()).page_id;
    let put = wal_insert(begun, txn, id, t);
    let ins = insert_record(begun, txn, id, t);
    let end = LogView::Commit { lsn: 0, txn_id: txn };
    lemma_record_len(ins);
    lemma_record_len(end);
    lemma_record_len(end.numbered(put.lsn));
    lemma_begun_open(db);
    assert(all_sized(put.pages)) by {
        law_blank(id);
    }
    lemma_open_append(db.wal.log, begun, put, ins, txn);
    law_append_reads_back(put.log, end.numbered(put.lsn));
    let now = log_records(insert(db, table, row).0.wal.log);
    assert(now[base.len() as int + 1] == ins.numbered(begun.lsn));
}

/// A table gets a page only with an insertion into it: statements keep every page of the tables in
/// the log.
pub proof fn law_pages_stay_in_the_log(db: DbView, stmt: StatementView)
    requires
        durable(db),
        all_inserted(db),
        db.num_pages < u32::MAX,
        db.wal.next_txn < u32::MAX,
    ensures
        all_inserted(execute(db, stmt).0),
{
    let after = execute(db, stmt).0;
    let base = log_records(db.wal.log);
    let now = log_records(after.wal.log);
    lemma_statement_appends(db, stmt);
    assert forall|i: int, k: int|
        0 <= i < after.tables.len() && 0 <= k < after.tables[i].pages.len() implies has_insertion(
        now,
        #[trigger] after.tables[i].pages[k],
    ) by {
        lemma_pages_from(db, stmt, i, k);
        if 0 <= i < db.tables.len() && 0 <= k < db.tables[i].pages.len()
            && db.tables[i].pages[k] == after.tables[i].pages[k] {
            assert(has_insertion(base, db.tables[i].pages[k]));
            lemma_insertions_stay(base, now, db.tables[i].pages[k]);
        }
    }
}

/// Where a page of a table is from.
proof fn lemma_pages_from(db: DbView, stmt: StatementView, i: int, k: int)
    requires
        durable(db),
        db.num_pages < u32::MAX,
        db.wal.next_txn < u32::MAX,
        ({
            let tables = execute(db, stmt).0.tables;
            0 <= i < tables.len() && 0 <= k < tables[i].pages.len()
        }),
    ensures
        ({
            let after = execute(db, stmt).0;
            ||| 0 <= i < db.tables.len() && 0 <= k < db.tables[i].pages.len()
                && db.tables[i].pages[k] == after.tables[i].pages[k]
            ||| has_insertion(log_records(after.wal.log), after.tables[i].pages[k])
        }),
{
    match stmt {
        StatementView::CreateTable { table, columns } => {
            if execute(db, stmt).1 is Ok {
                lemma_create_lists(db, table, columns);
            }
        },
        StatementView::Select { .. } => {},
        StatementView::Insert { table, values } => {
            if execute(db, stmt).1 is Ok {
                let k0 = lemma_insert_outcome(db, table, values);
                let i0 = lemma_list(db.tables, table);
                lemma_insert_records(db, table, values);
            }
        },
        StatementView::Delete { table, filter } => {
            lemma_sweep_files(db, table, filter, None);
        },
        StatementView::Update { table, assignments, filter } => {
            lemma_sweep_files(db, table, filter, Some(assignments));
        },
    }
}

} // verus!
