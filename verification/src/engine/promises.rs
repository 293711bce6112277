//! What holds of a database at all times, and what it promises of the statements on it.
use crate::engine::catalog::{
    deserialized, fits, law_row_fits, lemma_key_column, lemma_row_size, lemma_serialize_ok,
    new_schema, row_bytes, serialized, value_bytes, CatalogView,
};
use crate::engine::changes::{
    all_rows, assigned, law_deleted_rows_are_gone, law_failed_sweep_changes_nothing,
    law_insert_is_selected, law_null_key_is_refused, law_sweep_changes_selected,
    law_tables_stay_in_order, law_updated_rows_are_assigned, lemma_star_rows, unselected,
};
use crate::engine::contents::{
    cells_upto, heap_ok, law_select_reads_table, lemma_cells_same, lemma_good_list, lemma_listed,
    lemma_no_fault, lemma_place, lemma_serialized_parts, page_cells, page_good, table_cells, Cell,
};
use crate::engine::crashes::{
    all_inserted, has_insertion, law_inserted_pages_are_made, law_pages_stay_in_the_log,
    lemma_unmade,
};
use crate::engine::durability::{
    durable, law_committed_rows_survive_restart, law_log_stays_in_step, law_new_database_is_durable,
    law_statements_are_durable, lemma_insert_names, lemma_listed_page, lemma_tables_back, restarted,
};
use crate::engine::executor::{lists_on_file, opened};
use crate::engine::index_manager::index_get;
use crate::engine::indexed::only_keys;
use crate::engine::keys::{
    columns_apart, keyed, keys_at, keys_ok, law_duplicate_key_is_refused, law_keys_are_kept,
    lemma_create_get,
};
use crate::engine::model::{
    assign_check, assign_upto, catalog_in, create_table, execute, insert, judge, key_check,
    key_in_use, msg_duplicate_key, msg_null_key, page_has_key, place_for, same_value, selected,
    slot_has_key, survey_pages, survey_slots, sweep, sweep_of, table_pages, DbView, RowView, Sweep,
};
use crate::engine::rebuild::{
    defs_ok, key_only, law_index_definitions_are_kept, law_keys_survive_restart, lemma_index_back,
};
use crate::engine::tables::lemma_tables_put;
use crate::index::btree::rid_of;
use crate::index::node::Rid;
use crate::recovery::wal::{
    bytes_taken, committed_set, in_step, law_empty_log, law_recovery_is_in_step,
    law_torn_record_is_dropped, log_records, page_or_blank, page_taken, recovered, slots_taken,
    wal_opened, WalView,
};
use crate::sql::ast::{
    rank_values, AssignmentView, ColumnView, ExprView, Op, SelectView, StatementView, ValueView,
};
use crate::storage::catalog_store::saveable;
use crate::storage::error::StorageError;
use crate::storage::page::{
    law_blank, law_body_reads, law_fits, page_blank, page_body, page_count, page_fits, page_get,
    page_wf, PAGE_SIZE, PageHeader, Slot,
};
use vstd::prelude::*;

verus! {

/// A row of `len` bytes and its slot fit an empty page.
pub open spec fn fits_empty_page(len: nat) -> bool {
    PageHeader::SIZE + Slot::SIZE + len <= PAGE_SIZE
}

/// Every row of every table can be read.
pub open spec fn readable(db: DbView) -> bool {
    forall|table: Seq<char>| db.catalog.get(table) is Some ==> (#[trigger] all_rows(db, table)) is Ok
}

/// What holds of a database between statements: its tables are in order and can be read, a restart
/// gives them back, the indexes on primary keys lead to the rows, and the log has every page.
pub open spec fn consistent(db: DbView) -> bool {
    &&& durable(db)
    &&& readable(db)
    &&& keys_ok(db)
    &&& defs_ok(db.catalog)
    &&& in_step(db.wal)
    &&& all_inserted(db)
}

/// A statement can be given the numbers that it needs, and the catalog that it leaves can be saved.
pub open spec fn within_limits(db: DbView, stmt: StatementView) -> bool {
    &&& db.num_pages < u32::MAX
    &&& db.wal.next_txn < u32::MAX
    &&& stmt is CreateTable && execute(db, stmt).1 is Ok ==> saveable(execute(db, stmt).0.catalog)
}

/// A database with no files yet is consistent.
pub proof fn law_new_database_is_consistent()
    ensures
        consistent(opened(Seq::empty(), Seq::empty(), None, Seq::empty())),
{
    let db = opened(Seq::empty(), Seq::empty(), None, Seq::empty());
    law_new_database_is_durable();
    law_empty_log();
    law_torn_record_is_dropped(Seq::empty());
    assert(log_records(Seq::<u8>::empty()) =~= Seq::empty());
    law_recovery_is_in_step(Seq::empty());
}

/// Every statement, whether it succeeds or not, leaves a consistent database.
pub proof fn law_statements_keep_consistency(db: DbView, stmt: StatementView)
    requires
        consistent(db),
        within_limits(db, stmt),
    ensures
        consistent(execute(db, stmt).0),
{
    law_statements_are_durable(db, stmt);
    law_keys_are_kept(db, stmt);
    law_index_definitions_are_kept(db, stmt);
    law_log_stays_in_step(db, stmt);
    law_pages_stay_in_the_log(db, stmt);
    lemma_stays_readable(db, stmt);
}

/// A table whose list and pages stay as they were returns the rows that it returned.
proof fn lemma_same_table(db: DbView, after: DbView, table: Seq<char>)
    requires
        heap_ok(db),
        heap_ok(after),
        after.catalog.get(table) == db.catalog.get(table),
        db.catalog.get(table) is Some ==> {
            let ids = table_pages(db.tables, table)->0;
            &&& table_pages(after.tables, table) == table_pages(db.tables, table)
            &&& forall|k: int|
                0 <= k < ids.len() ==> after.pages[#[trigger] ids[k]] == db.pages[ids[k]]
        },
    ensures
        all_rows(after, table) == all_rows(db, table),
{
    if db.catalog.get(table) is Some {
        let ids = table_pages(db.tables, table)->0;
        law_select_reads_table(db, table, SelectView::Star);
        law_select_reads_table(after, table, SelectView::Star);
        lemma_cells_same(after.pages, db.pages, ids, ids.len());
    }
}

proof fn lemma_create_other(
    db: DbView,
    table: Seq<char>,
    columns: Seq<ColumnView>,
    other: Seq<char>,
)
    requires
        heap_ok(db),
        heap_ok(create_table(db, table, columns).0),
        create_table(db, table, columns).1 is Ok,
        other != table,
    ensures
        all_rows(create_table(db, table, columns).0, other) == all_rows(db, other),
{
    let after = create_table(db, table, columns).0;
    lemma_create_get(db, table, columns, other);
    lemma_tables_put(db.tables, table, Seq::empty(), other);
    lemma_same_table(db, after, other);
}

proof fn lemma_create_own(db: DbView, table: Seq<char>, columns: Seq<ColumnView>)
    requires
        heap_ok(create_table(db, table, columns).0),
        create_table(db, table, columns).1 is Ok,
    ensures
        create_table(db, table, columns).0.catalog.get(table) == Some(new_schema(table, columns)),
        all_rows(create_table(db, table, columns).0, table) == Ok::<Seq<RowView>, Seq<char>>(
            Seq::empty(),
        ),
{
    let after = create_table(db, table, columns).0;
    lemma_create_get(db, table, columns, table);
    lemma_tables_put(db.tables, table, Seq::empty(), table);
    law_select_reads_table(after, table, SelectView::Star);
    assert(table_cells(after, table) =~= Seq::empty());
}

/// A CREATE TABLE that succeeds makes a table without rows. Other tables return what they returned.
pub proof fn law_new_table_is_empty(db: DbView, table: Seq<char>, columns: Seq<ColumnView>)
    requires
        heap_ok(db),
        db.num_pages < u32::MAX,
        create_table(db, table, columns).1 is Ok,
    ensures
        create_table(db, table, columns).0.catalog.get(table) == Some(new_schema(table, columns)),
        all_rows(create_table(db, table, columns).0, table) == Ok::<Seq<RowView>, Seq<char>>(
            Seq::empty(),
        ),
        forall|other: Seq<char>|
            other != table ==> #[trigger] all_rows(create_table(db, table, columns).0, other)
                == all_rows(db, other),
{
    law_tables_stay_in_order(db, StatementView::CreateTable { table, columns });
    lemma_create_own(db, table, columns);
    assert forall|other: Seq<char>| other != table implies #[trigger] all_rows(
        create_table(db, table, columns).0,
        other,
    ) == all_rows(db, other) by {
        lemma_create_other(db, table, columns, other);
    }
}

/// A statement that fails changes no row of any table.
pub proof fn law_failed_statement_changes_no_row(db: DbView, stmt: StatementView)
    requires
        heap_ok(db),
        db.num_pages < u32::MAX,
        execute(db, stmt).1 is Err,
    ensures
        forall|table: Seq<char>| #[trigger]
            all_rows(execute(db, stmt).0, table) == all_rows(db, table),
        execute(db, stmt).0.catalog == db.catalog,
        !(stmt is CreateTable) ==> execute(db, stmt).0.indexes == db.indexes,
{
    let after = execute(db, stmt).0;
    law_tables_stay_in_order(db, stmt);
    match stmt {
        StatementView::CreateTable { .. } => {},
        StatementView::Select { .. } => {},
        StatementView::Insert { table, values } => {},
        StatementView::Delete { table, filter } => {
            law_failed_sweep_changes_nothing(db, table, filter, None);
        },
        StatementView::Update { table, assignments, filter } => {
            law_failed_sweep_changes_nothing(db, table, filter, Some(assignments));
        },
    }
    assert forall|table: Seq<char>| #[trigger] all_rows(after, table) == all_rows(db, table) by {
        if db.catalog.get(table) is Some {
            lemma_listed(db, table);
            lemma_good_list(db, table);
            let ids = table_pages(db.tables, table)->0;
            assert forall|k: int| 0 <= k < ids.len() implies after.pages[#[trigger] ids[k]]
                == db.pages[ids[k]] by {
                assert(page_good(db, ids[k]));
            }
        }
        lemma_same_table(db, after, table);
    }
}

proof fn lemma_stays_readable(db: DbView, stmt: StatementView)
    requires
        consistent(db),
        within_limits(db, stmt),
    ensures
        readable(execute(db, stmt).0),
{
    let after = execute(db, stmt).0;
    if execute(db, stmt).1 is Err {
        law_failed_statement_changes_no_row(db, stmt);
        assert forall|t: Seq<char>| after.catalog.get(t) is Some implies (#[trigger] all_rows(
            after,
            t,
        )) is Ok by {
            assert(all_rows(after, t) == all_rows(db, t));
        }
    } else {
        match stmt {
            StatementView::CreateTable { table, columns } => {
                law_new_table_is_empty(db, table, columns);
                assert forall|t: Seq<char>| after.catalog.get(t) is Some implies (
                #[trigger] all_rows(after, t)) is Ok by {
                    lemma_create_get(db, table, columns, t);
                    if t != table {
                        assert(all_rows(after, t) == all_rows(db, t));
                    }
                }
            },
            StatementView::Select { .. } => {},
            StatementView::Insert { table, values } => {
                lemma_insert_names(db, table, values);
                assert(all_rows(db, table) is Ok);
                let p = law_insert_is_selected(db, table, values);
                lemma_others_readable(db, after, table);
            },
            StatementView::Delete { table, filter } => {
                law_sweep_changes_selected(db, table, filter, None);
                law_deleted_rows_are_gone(db, table, filter);
                lemma_others_readable(db, after, table);
            },
            StatementView::Update { table, assignments, filter } => {
                law_sweep_changes_selected(db, table, filter, Some(assignments));
                law_updated_rows_are_assigned(db, table, filter, assignments);
                lemma_others_readable(db, after, table);
            },
        }
    }
}

proof fn lemma_others_readable(db: DbView, after: DbView, table: Seq<char>)
    requires
        readable(db),
        after.catalog == db.catalog,
        all_rows(after, table) is Ok,
        forall|other: Seq<char>|
            other != table && db.catalog.get(other) is Some ==> #[trigger] all_rows(after, other)
                == all_rows(db, other),
    ensures
        readable(after),
{
    assert forall|t: Seq<char>| after.catalog.get(t) is Some implies (#[trigger] all_rows(
        after,
        t,
    )) is Ok by {
        if t != table {
            assert(all_rows(after, t) == all_rows(db, t));
        }
    }
}

/// Opening the files of a database again and recovering brings everything back, whichever changes
/// had reached the pages of the database file: recovery succeeds and loads every table, with its
/// columns; the rows are those before, in the same order; the primary keys, and no other columns,
/// have their indexes; and the database is consistent.
pub proof fn law_restart_brings_all_back(db: DbView, file: Seq<Seq<u8>>)
    requires
        consistent(db),
        lists_on_file(db.tables, file),
        file.len() <= u32::MAX,
        forall|i: int| 0 <= i < file.len() ==> (#[trigger] file[i]).len() == PAGE_SIZE,
    ensures
        catalog_in(db.catalog_file) == Ok::<CatalogView, Seq<char>>(db.catalog),
        restarted(db, file).catalog == db.catalog,
        forall|table: Seq<char>| #[trigger]
            all_rows(restarted(db, file), table) == all_rows(db, table),
        forall|table: Seq<char>, column: Seq<char>|
            db.catalog.get(table) is Some ==> (#[trigger] index_get(
                restarted(db, file).indexes,
                table,
                column,
            ) is Some <==> (db.catalog.get(table)->0).primary_key == Some(column)),
        consistent(restarted(db, file)),
        only_keys(restarted(db, file)),
{
    let r = restarted(db, file);
    law_inserted_pages_are_made(db, file);
    law_committed_rows_survive_restart(db, file);
    law_keys_survive_restart(db, file);
    lemma_tables_back(db, file);
    law_torn_record_is_dropped(db.wal.log);
    law_recovery_is_in_step(db.wal.log);
    assert forall|table: Seq<char>, column: Seq<char>|
        db.catalog.get(table) is Some implies (#[trigger] index_get(
        r.indexes,
        table,
        column,
    ) is Some <==> (db.catalog.get(table)->0).primary_key == Some(column)) by {
        lemma_index_back(db, file, table);
    }
    assert forall|table: Seq<char>| r.catalog.get(table) is Some implies #[trigger] key_only(
        r,
        table,
    ) by {
        lemma_index_back(db, file, table);
    }
    assert forall|table: Seq<char>| r.catalog.get(table) is Some implies (#[trigger] all_rows(
        r,
        table,
    )) is Ok by {
        assert(all_rows(r, table) == all_rows(db, table));
    }
    assert forall|i: int, k: int|
        0 <= i < r.tables.len() && 0 <= k < r.tables[i].pages.len() implies has_insertion(
        log_records(r.wal.log),
        #[trigger] r.tables[i].pages[k],
    ) by {
        assert(has_insertion(log_records(db.wal.log), db.tables[i].pages[k]));
    }
}

// Inserting.

proof fn lemma_page_holds(id: u32, d: Seq<u8>, n: nat, slot: u16) -> (i: int)
    requires
        slot < n,
        page_get(d, slot as int) is Some,
    ensures
        0 <= i < page_cells(id, d, n).len(),
        page_cells(id, d, n)[i] == (Cell {
            rid: Rid { page_id: id, slot_id: slot },
            tuple: page_get(d, slot as int)->0,
        }),
    decreases n,
{
    if slot == n - 1 {
        page_cells(id, d, (n - 1) as nat).len() as int
    } else {
        lemma_page_holds(id, d, (n - 1) as nat, slot)
    }
}

proof fn lemma_pages_hold(
    pages: Map<u32, Result<Seq<u8>, StorageError>>,
    ids: Seq<u32>,
    n: nat,
    k: int,
    slot: u16,
) -> (i: int)
    requires
        0 <= k < n <= ids.len(),
        page_get(pages[ids[k]]->Ok_0, slot as int) is Some,
    ensures
        0 <= i < cells_upto(pages, ids, n).len(),
        cells_upto(pages, ids, n)[i] == (Cell {
            rid: Rid { page_id: ids[k], slot_id: slot },
            tuple: page_get(pages[ids[k]]->Ok_0, slot as int)->0,
        }),
    decreases n,
{
    let d = pages[ids[n - 1]]->Ok_0;
    let before = cells_upto(pages, ids, (n - 1) as nat);
    if k == n - 1 {
        let i = lemma_page_holds(ids[k], d, page_count(d) as nat, slot);
        before.len() + i
    } else {
        lemma_pages_hold(pages, ids, (n - 1) as nat, k, slot)
    }
}

/// Some row of a table that a SELECT returns has a primary key that is equal to `v`.
pub open spec fn key_taken(db: DbView, table: Seq<char>, v: ValueView) -> bool {
    let rows = all_rows(db, table)->Ok_0;
    let c = (db.catalog.get(table)->0).pk_col()->0;
    exists|i: int| 0 <= i < rows.len() && same_value((#[trigger] rows[i])[c], v)
}

/// The rows that a SELECT of all rows returns are those of the cells.
proof fn lemma_row_of(db: DbView, table: Seq<char>, k: int, slot: u16, v: ValueView)
    requires
        heap_ok(db),
        db.catalog.get(table) is Some,
        all_rows(db, table) is Ok,
        ({
            let ids = table_pages(db.tables, table)->0;
            &&& 0 <= k < ids.len()
            &&& page_has_key(db.catalog.get(table)->0, db.pages[ids[k]]->Ok_0, slot as int, v)
        }),
    ensures
        key_taken(db, table, v),
{
    let schema = db.catalog.get(table)->0;
    let ids = table_pages(db.tables, table)->0;
    let cells = table_cells(db, table);
    let rows = all_rows(db, table)->Ok_0;
    law_select_reads_table(db, table, SelectView::Star);
    lemma_star_rows(schema, cells, rows);
    let i = lemma_pages_hold(db.pages, ids, ids.len(), k, slot);
    assert(deserialized(schema.columns, cells[i].tuple) == Ok::<RowView, Seq<char>>(rows[i]));
    assert(same_value(rows[i][schema.pk_col()->0], v));
}

/// A key that the database finds in use is that of a row.
pub proof fn lemma_in_use(db: DbView, table: Seq<char>, v: ValueView)
    requires
        heap_ok(db),
        keys_ok(db),
        db.catalog.get(table) is Some,
        columns_apart((db.catalog.get(table)->0).columns),
        (db.catalog.get(table)->0).primary_key is Some,
        all_rows(db, table) is Ok,
        key_in_use(db, db.catalog.get(table)->0, table, v),
    ensures
        key_taken(db, table, v),
{
    let schema = db.catalog.get(table)->0;
    lemma_listed(db, table);
    lemma_good_list(db, table);
    lemma_key_column(table, schema.columns);
    let ids = table_pages(db.tables, table)->0;
    if let ValueView::Int(key) = v {
        assert(keyed(db, table));
        let e = index_get(db.indexes, table, schema.primary_key->0)->0;
        let f = keys_at(db, table);
        let rid = rid_of(e, key)->0;
        assert(f(rid) == Some(key));
        let k = choose|k: int| 0 <= k < ids.len() && ids[k] == rid.page_id;
        assert(page_has_key(schema, db.pages[ids[k]]->Ok_0, rid.slot_id as int, v));
        lemma_row_of(db, table, k, rid.slot_id, v);
    } else {
        let (k, i) = choose|k: int, i: int|
            0 <= k < ids.len() && #[trigger] slot_has_key(db.pages, schema, ids[k], i, v);
        assert(page_good(db, ids[k]));
        assert(0 <= i < page_count(db.pages[ids[k]]->Ok_0));
        lemma_row_of(db, table, k, i as u16, v);
    }
}

/// The log's own copy of a page has the room that the page has.
proof fn lemma_log_room(db: DbView, id: u32, len: nat)
    requires
        durable(db),
        in_step(db.wal),
    ensures
        page_fits(page_or_blank(db.wal.pages, id), len) == page_fits(
            page_or_blank(recovered(log_records(db.wal.log)), id),
            len,
        ),
{
    let records = log_records(db.wal.log);
    let again = WalView { pages: recovered(records), ..wal_opened(db.wal.log) };
    law_torn_record_is_dropped(db.wal.log);
    law_recovery_is_in_step(db.wal.log);
    let a = page_or_blank(db.wal.pages, id);
    let b = page_or_blank(again.pages, id);
    let slots = slots_taken(records, records.len(), id);
    let bytes = bytes_taken(records, records.len(), id);
    assert(page_taken(a, slots, bytes));
    assert(page_taken(b, slots, bytes));
}

/// A row that is well typed, fits an empty page and has a primary key that no other row has is
/// inserted.
pub proof fn lemma_insert_owed(db: DbView, table: Seq<char>, row: RowView)
    requires
        consistent(db),
        db.num_pages < u32::MAX,
        db.catalog.get(table) is Some,
        serialized((db.catalog.get(table)->0).columns, row) is Ok,
        fits_empty_page((serialized((db.catalog.get(table)->0).columns, row)->Ok_0).len()),
        key_check(db, db.catalog.get(table)->0, table, row) is Ok,
    ensures
        insert(db, table, row).1 is Ok,
{
    let schema = db.catalog.get(table)->0;
    let t = serialized(schema.columns, row)->Ok_0;
    let records = log_records(db.wal.log);
    let made = recovered(records);
    lemma_listed(db, table);
    lemma_good_list(db, table);
    let ids = table_pages(db.tables, table)->0;
    assert forall|j: int| 0 <= j < ids.len() implies (db.pages[#[trigger] ids[j]] matches Ok(d)
        && page_wf(d)) by {
        assert(page_good(db, ids[j]));
    }
    lemma_no_fault(db.pages, ids, t.len(), 0);
    if place_for(db.pages, ids, t.len(), 0) is At {
        let k = lemma_place(db.pages, ids, t.len(), 0);
        let d = db.pages[ids[k]]->Ok_0;
        let p = page_or_blank(made, ids[k]);
        assert(ids.contains(ids[k]));
        lemma_listed_page(db, table, ids[k], committed_set(records));
        assert(page_body(d) =~= d);
        law_body_reads(p, d);
        assert(page_fits(p, t.len()) == page_fits(d, t.len()));
        lemma_log_room(db, ids[k], t.len());
    } else {
        let id = db.num_pages;
        lemma_unmade(db);
        law_blank(id);
        law_fits(page_blank(id), t.len());
        lemma_log_room(db, id, t.len());
    }
}

/// A row that is well typed and fits a page is refused exactly if its primary key is NULL or equal
/// to that of a row of the table; the message says which. If it is refused, nothing changes; if not,
/// a SELECT returns the rows that it returned before and the new one.
pub proof fn law_insert_is_refused_only_for_its_key(
    db: DbView,
    table: Seq<char>,
    row: RowView,
) -> (p: int)
    requires
        consistent(db),
        db.num_pages < u32::MAX,
        db.catalog.get(table) is Some,
        columns_apart((db.catalog.get(table)->0).columns),
        (db.catalog.get(table)->0).primary_key is Some,
        serialized((db.catalog.get(table)->0).columns, row) is Ok,
        fits_empty_page((serialized((db.catalog.get(table)->0).columns, row)->Ok_0).len()),
    ensures
        ({
            let schema = db.catalog.get(table)->0;
            let c = schema.pk_col()->0;
            let (after, res) = insert(db, table, row);
            &&& res is Err <==> row[c] is Null || key_taken(db, table, row[c])
            &&& row[c] is Null ==> res == Err::<Seq<RowView>, Seq<char>>(
                msg_null_key(schema.primary_key->0),
            )
            &&& !(row[c] is Null) && key_taken(db, table, row[c]) ==> res == Err::<
                Seq<RowView>,
                Seq<char>,
            >(msg_duplicate_key(schema.primary_key->0, row[c]))
            &&& res is Err ==> after == db
            &&& res is Ok ==> {
                let rows = all_rows(db, table)->Ok_0;
                &&& 0 <= p <= rows.len()
                &&& res == Ok::<Seq<RowView>, Seq<char>>(Seq::empty())
                &&& all_rows(after, table) == Ok::<Seq<RowView>, Seq<char>>(rows.insert(p, row))
            }
        }),
{
    let schema = db.catalog.get(table)->0;
    lemma_listed(db, table);
    lemma_key_column(table, schema.columns);
    let c = schema.pk_col()->0;
    let rows = all_rows(db, table)->Ok_0;
    assert(all_rows(db, table) is Ok);
    lemma_serialized_parts(schema.columns, row, row.len());
    assert(fits(schema.columns[c].ty, row[c]));
    if row[c] is Null {
        law_null_key_is_refused(db, table, row);
        0
    } else if key_taken(db, table, row[c]) {
        let i = choose|i: int| 0 <= i < rows.len() && same_value((#[trigger] rows[i])[c], row[c]);
        law_duplicate_key_is_refused(db, table, row, i);
        0
    } else {
        if key_in_use(db, schema, table, row[c]) {
            lemma_in_use(db, table, row[c]);
        }
        lemma_insert_owed(db, table, row);
        law_insert_is_selected(db, table, row)
    }
}

// Deleting and updating.

/// A DELETE or UPDATE does not fail at a row: the WHERE clause can be evaluated on it, and, if the
/// row is selected, the assignments keep its key apart from those of other rows, fit the columns, and
/// do not make it longer.
pub open spec fn row_passes(s: Sweep, row: RowView) -> bool {
    match selected(s.schema, row, s.filter) {
        Err(_) => false,
        Ok(false) => true,
        Ok(true) => s.set matches Some(set) ==> {
            let after = assign_upto(s.schema, row, set, set.len());
            &&& assign_check(s, true, row, set.len()) is Ok
            &&& after is Ok
            &&& serialized(s.schema.columns, after->Ok_0) is Ok
            &&& (serialized(s.schema.columns, after->Ok_0)->Ok_0).len() <= row_bytes(row).len()
        },
    }
}

proof fn lemma_check_given(s: Sweep, given: bool, row: RowView, n: nat)
    requires
        assign_check(s, true, row, n) is Ok,
    ensures
        assign_check(s, given, row, n) is Ok,
    decreases n,
{
    if n > 0 && s.schema.primary_key is Some {
        lemma_check_given(s, given, row, (n - 1) as nat);
    }
}

proof fn lemma_judged(s: Sweep, given: bool, t: Seq<u8>)
    requires
        deserialized(s.schema.columns, t) matches Ok(row) && row_passes(s, row),
    ensures
        judge(s, given, t) is Ok,
{
    let row = deserialized(s.schema.columns, t)->Ok_0;
    lemma_row_size(s.schema.columns, t);
    if let Some(set) = s.set {
        if selected(s.schema, row, s.filter) == Ok::<bool, Seq<char>>(true) {
            lemma_check_given(s, given, row, set.len());
        }
    }
}

proof fn lemma_slots_surveyed(s: Sweep, given: bool, d: Seq<u8>, n: nat)
    requires
        forall|i: int|
            0 <= i < n ==> ((#[trigger] page_get(d, i)) matches Some(t) ==> (deserialized(
                s.schema.columns,
                t,
            ) matches Ok(row) && row_passes(s, row))),
    ensures
        survey_slots(s, given, d, n) is Ok,
    decreases n,
{
    if n > 0 {
        lemma_slots_surveyed(s, given, d, (n - 1) as nat);
        if let Some(t) = page_get(d, n - 1) {
            lemma_judged(s, survey_slots(s, given, d, (n - 1) as nat)->Ok_0, t);
        }
    }
}

proof fn lemma_pages_surveyed(
    pages: Map<u32, Result<Seq<u8>, StorageError>>,
    s: Sweep,
    ids: Seq<u32>,
    n: nat,
)
    requires
        n <= ids.len(),
        forall|k: int| 0 <= k < n ==> pages[#[trigger] ids[k]] is Ok,
        forall|k: int, i: int|
            0 <= k < n && 0 <= i < page_count(pages[ids[k]]->Ok_0) ==> ((#[trigger] page_get(
                pages[ids[k]]->Ok_0,
                i,
            )) matches Some(t) ==> (deserialized(s.schema.columns, t) matches Ok(row) && row_passes(
                s,
                row,
            ))),
    ensures
        survey_pages(pages, s, ids, n) is Ok,
    decreases n,
{
    if n > 0 {
        lemma_pages_surveyed(pages, s, ids, (n - 1) as nat);
        assert(pages[ids[n - 1]] is Ok);
        let d = pages[ids[n - 1]]->Ok_0;
        let given = survey_pages(pages, s, ids, (n - 1) as nat)->Ok_0;
        lemma_slots_surveyed(s, given, d, page_count(d) as nat);
    }
}

/// A DELETE or UPDATE that fails at none of the rows of its table succeeds.
pub proof fn law_sweep_is_owed(
    db: DbView,
    table: Seq<char>,
    filter: Option<ExprView>,
    set: Option<Seq<AssignmentView>>,
)
    requires
        heap_ok(db),
        db.catalog.get(table) is Some,
        all_rows(db, table) is Ok,
        forall|i: int|
            0 <= i < all_rows(db, table)->Ok_0.len() ==> row_passes(
                sweep_of(db, table, filter, set),
                #[trigger] all_rows(db, table)->Ok_0[i],
            ),
    ensures
        sweep(db, table, filter, set).1 == Ok::<Seq<RowView>, Seq<char>>(Seq::empty()),
{
    let schema = db.catalog.get(table)->0;
    let s = sweep_of(db, table, filter, set);
    let ids = table_pages(db.tables, table)->0;
    let cells = table_cells(db, table);
    let rows = all_rows(db, table)->Ok_0;
    lemma_listed(db, table);
    lemma_good_list(db, table);
    law_select_reads_table(db, table, SelectView::Star);
    lemma_star_rows(schema, cells, rows);
    assert forall|k: int| 0 <= k < ids.len() implies db.pages[#[trigger] ids[k]] is Ok by {
        assert(page_good(db, ids[k]));
    }
    assert forall|k: int, i: int|
        0 <= k < ids.len() && 0 <= i < page_count(db.pages[ids[k]]->Ok_0) implies ((
    #[trigger] page_get(db.pages[ids[k]]->Ok_0, i)) matches Some(t) ==> (deserialized(
        schema.columns,
        t,
    ) matches Ok(row) && row_passes(s, row))) by {
        if page_get(db.pages[ids[k]]->Ok_0, i) is Some {
            let j = lemma_pages_hold(db.pages, ids, ids.len(), k, i as u16);
            assert(deserialized(schema.columns, cells[j].tuple) == Ok::<RowView, Seq<char>>(
                rows[j],
            ));
            assert(row_passes(s, rows[j]));
        }
    }
    lemma_pages_surveyed(db.pages, s, ids, ids.len());
}

/// What an UPDATE does: if it succeeds, it returns no rows, and a SELECT returns the rows that it
/// returned before, in the same order, those that the WHERE clause selects with the new values
/// assigned; if it fails, no row changes. Rows of other tables stay as they were.
pub proof fn law_update_outcome(
    db: DbView,
    table: Seq<char>,
    assignments: Seq<AssignmentView>,
    filter: Option<ExprView>,
)
    requires
        consistent(db),
        db.num_pages < u32::MAX,
    ensures
        ({
            let (after, res) = execute(db, StatementView::Update { table, assignments, filter });
            &&& match res {
                Ok(out) => {
                    &&& out.len() == 0
                    &&& all_rows(after, table) == Ok::<Seq<RowView>, Seq<char>>(
                        all_rows(db, table)->Ok_0.map_values(
                            assigned(db.catalog.get(table)->0, filter, assignments),
                        ),
                    )
                },
                Err(_) => all_rows(after, table) == all_rows(db, table),
            }
            &&& forall|other: Seq<char>|
                other != table && db.catalog.get(other) is Some ==> #[trigger] all_rows(after, other)
                    == all_rows(db, other)
        }),
{
    let stmt = StatementView::Update { table, assignments, filter };
    if execute(db, stmt).1 is Ok {
        law_updated_rows_are_assigned(db, table, filter, assignments);
    } else {
        law_failed_statement_changes_no_row(db, stmt);
    }
}

/// What a DELETE does: if it succeeds, it returns no rows, and a SELECT returns the rows that it
/// returned before but for those that the WHERE clause selects, in the same order; if it fails, no
/// row changes. Rows of other tables stay as they were.
pub proof fn law_delete_outcome(db: DbView, table: Seq<char>, filter: Option<ExprView>)
    requires
        consistent(db),
        db.num_pages < u32::MAX,
    ensures
        ({
            let (after, res) = execute(db, StatementView::Delete { table, filter });
            &&& match res {
                Ok(out) => {
                    &&& out.len() == 0
                    &&& all_rows(after, table) == Ok::<Seq<RowView>, Seq<char>>(
                        all_rows(db, table)->Ok_0.filter(
                            unselected(db.catalog.get(table)->0, filter),
                        ),
                    )
                },
                Err(_) => all_rows(after, table) == all_rows(db, table),
            }
            &&& forall|other: Seq<char>|
                other != table && db.catalog.get(other) is Some ==> #[trigger] all_rows(after, other)
                    == all_rows(db, other)
        }),
{
    let stmt = StatementView::Delete { table, filter };
    if execute(db, stmt).1 is Ok {
        law_deleted_rows_are_gone(db, table, filter);
    } else {
        law_failed_statement_changes_no_row(db, stmt);
    }
}

/// A comparison of two values, of which `v` is not NULL, has an outcome.
pub open spec fn comparable(value: ValueView, v: ValueView) -> bool {
    value is Null || rank_values(value, v) is Some
}

/// An UPDATE that gives the row with primary key `v` the key `v` again succeeds, and changes no
/// other row, if `v` compares with the keys of all rows: no NaN is among them.
pub proof fn law_key_can_be_set_to_itself(db: DbView, table: Seq<char>, v: ValueView)
    requires
        consistent(db),
        db.num_pages < u32::MAX,
        db.catalog.get(table) is Some,
        (db.catalog.get(table)->0).primary_key is Some,
        ({
            let schema = db.catalog.get(table)->0;
            fits(schema.columns[schema.pk_col()->0].ty, v) && !(v is Null)
        }),
        ({
            let rows = all_rows(db, table)->Ok_0;
            let c = (db.catalog.get(table)->0).pk_col()->0;
            forall|i: int|
                0 <= i < rows.len() ==> comparable((#[trigger] rows[i])[c], v)
        }),
    ensures
        ({
            let schema = db.catalog.get(table)->0;
            let key = schema.primary_key->0;
            let c = schema.pk_col()->0;
            let filter = Some(ExprView { left: key, op: Op::Eq, right: v });
            let assignments = seq![AssignmentView { column: key, value: v }];
            let (after, res) = execute(db, StatementView::Update { table, assignments, filter });
            let rows = all_rows(db, table)->Ok_0;
            &&& res == Ok::<Seq<RowView>, Seq<char>>(Seq::empty())
            &&& all_rows(after, table) == Ok::<Seq<RowView>, Seq<char>>(
                rows.map_values(
                    |row: RowView|
                        if same_value(row[c], v) {
                            row.update(c, v)
                        } else {
                            row
                        },
                ),
            )
        }),
{
    let schema = db.catalog.get(table)->0;
    let key = schema.primary_key->0;
    let e = ExprView { left: key, op: Op::Eq, right: v };
    let set = seq![AssignmentView { column: key, value: v }];
    let s = sweep_of(db, table, Some(e), Some(set));
    let rows = all_rows(db, table)->Ok_0;
    lemma_listed(db, table);
    lemma_key_column(table, schema.columns);
    let c = schema.pk_col()->0;
    assert(all_rows(db, table) is Ok);
    assert forall|i: int| 0 <= i < rows.len() implies row_passes(s, #[trigger] rows[i]) by {
        lemma_own_key(db, table, v, rows[i], i);
    }
    law_sweep_is_owed(db, table, Some(e), Some(set));
    law_updated_rows_are_assigned(db, table, Some(e), set);
    let f = |row: RowView|
        if same_value(row[c], v) {
            row.update(c, v)
        } else {
            row
        };
    assert(rows.map_values(assigned(schema, Some(e), set)) =~= rows.map_values(f)) by {
        assert forall|i: int| 0 <= i < rows.len() implies assigned(schema, Some(e), set)(
            rows[i],
        ) == #[trigger] f(rows[i]) by {
            lemma_own_key(db, table, v, rows[i], i);
        }
    }
}

proof fn lemma_own_key(db: DbView, table: Seq<char>, v: ValueView, row: RowView, i: int)
    requires
        heap_ok(db),
        db.catalog.get(table) is Some,
        (db.catalog.get(table)->0).primary_key is Some,
        ({
            let schema = db.catalog.get(table)->0;
            fits(schema.columns[schema.pk_col()->0].ty, v) && !(v is Null)
        }),
        all_rows(db, table) is Ok,
        0 <= i < all_rows(db, table)->Ok_0.len(),
        row == all_rows(db, table)->Ok_0[i],
        comparable(row[(db.catalog.get(table)->0).pk_col()->0], v),
    ensures
        ({
            let schema = db.catalog.get(table)->0;
            let key = schema.primary_key->0;
            let c = schema.pk_col()->0;
            let e = ExprView { left: key, op: Op::Eq, right: v };
            let set = seq![AssignmentView { column: key, value: v }];
            &&& row_passes(sweep_of(db, table, Some(e), Some(set)), row)
            &&& assigned(schema, Some(e), set)(row) == (if same_value(row[c], v) {
                row.update(c, v)
            } else {
                row
            })
        }),
{
    let schema = db.catalog.get(table)->0;
    let key = schema.primary_key->0;
    let e = ExprView { left: key, op: Op::Eq, right: v };
    let set = seq![AssignmentView { column: key, value: v }];
    let s = sweep_of(db, table, Some(e), Some(set));
    let cells = table_cells(db, table);
    lemma_listed(db, table);
    lemma_key_column(table, schema.columns);
    let c = schema.pk_col()->0;
    law_select_reads_table(db, table, SelectView::Star);
    lemma_star_rows(schema, cells, all_rows(db, table)->Ok_0);
    assert(deserialized(schema.columns, cells[i].tuple) == Ok::<RowView, Seq<char>>(row));
    law_row_fits(schema.columns, cells[i].tuple);
    assert(fits(schema.columns[c].ty, row[c]));
    reveal_with_fuel(assign_upto, 2);
    reveal_with_fuel(assign_check, 2);
    if same_value(row[c], v) {
        let now = row.update(c, v);
        assert(assign_upto(schema, row, set, 1) == Ok::<RowView, Seq<char>>(now));
        assert forall|k: int| 0 <= k < now.len() implies fits(
            schema.columns[k].ty,
            #[trigger] now[k],
        ) by {
            assert(fits(schema.columns[k].ty, row[k]));
        }
        lemma_serialize_ok(schema.columns, now, now.len());
        assert(now.take(now.len() as int) =~= now);
        lemma_row_update(row, c, v);
    }
}

/// A value in place of one of the same length leaves the length of a row as it was.
proof fn lemma_row_update(row: RowView, c: int, v: ValueView)
    requires
        0 <= c < row.len(),
        value_bytes(v).len() == value_bytes(row[c]).len(),
    ensures
        row_bytes(row.update(c, v)).len() == row_bytes(row).len(),
    decreases row.len(),
{
    let now = row.update(c, v);
    if c == row.len() - 1 {
        assert(now.drop_last() =~= row.drop_last());
    } else {
        lemma_row_update(row.drop_last(), c, v);
        assert(now.drop_last() =~= row.drop_last().update(c, v));
    }
}

} // verus!
