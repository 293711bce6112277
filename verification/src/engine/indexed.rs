//! Which columns have indexes: the primary keys.
use crate::engine::catalog::{deserialized, lemma_position, new_schema, serialized, table_names};
use crate::engine::changes::updated_row;
use crate::engine::contents::{heap_ok, insert_rid, lemma_insert_outcome};
use crate::engine::index_manager::{
    index_at, index_delete, index_get, index_insert, lemma_index_at, IndexView,
};
use crate::engine::keys::{
    keys_ok, lemma_get_created, lemma_get_deleted, lemma_get_inserted, lemma_insert_index,
};
use crate::engine::model::{
    create_table, execute, index_add_row, index_change_row, index_remove_row, sweep, sweep_of,
    sweep_pages, sweep_slot, sweep_slots, table_pages, DbView, RowView, Sweep, Work,
};
use crate::engine::rebuild::key_only;
use crate::engine::tables::lemma_position_push;
use crate::index::node::Rid;
use crate::recovery::wal::wal_begin;
use crate::sql::ast::{AssignmentView, ColumnView, ExprView, StatementView, ValueView};
use crate::storage::page::{page_count, page_get};
use vstd::prelude::*;

verus! {

/// Indexes on the same columns.
pub open spec fn same_columns(v: Seq<IndexView>, w: Seq<IndexView>) -> bool {
    forall|t: Seq<char>, c: Seq<char>| #[trigger]
        index_get(w, t, c) is Some <==> index_get(v, t, c) is Some
}

/// Only primary keys have indexes.
pub open spec fn only_keys(db: DbView) -> bool {
    forall|table: Seq<char>| db.catalog.get(table) is Some ==> #[trigger] key_only(db, table)
}

proof fn lemma_insert_columns(
    u: Seq<IndexView>,
    v: Seq<IndexView>,
    table: Seq<char>,
    column: Seq<char>,
    key: i64,
    rid: Rid,
)
    requires
        same_columns(u, v),
    ensures
        same_columns(u, index_insert(v, table, column, key, rid)),
{
    let w = index_insert(v, table, column, key, rid);
    assert forall|t: Seq<char>, c: Seq<char>| #[trigger] index_get(w, t, c) is Some <==> index_get(
        u,
        t,
        c,
    ) is Some by {
        lemma_get_inserted(v, table, column, key, rid, t, c);
        assert(index_get(v, t, c) is Some <==> index_get(u, t, c) is Some);
    }
}

proof fn lemma_delete_columns(
    u: Seq<IndexView>,
    v: Seq<IndexView>,
    table: Seq<char>,
    column: Seq<char>,
    key: i64,
)
    requires
        same_columns(u, v),
    ensures
        same_columns(u, index_delete(v, table, column, key)),
{
    let w = index_delete(v, table, column, key);
    assert forall|t: Seq<char>, c: Seq<char>| #[trigger] index_get(w, t, c) is Some <==> index_get(
        u,
        t,
        c,
    ) is Some by {
        lemma_get_deleted(v, table, column, key, t, c);
        assert(index_get(v, t, c) is Some <==> index_get(u, t, c) is Some);
    }
}

proof fn lemma_add_columns(
    v: Seq<IndexView>,
    table: Seq<char>,
    columns: Seq<ColumnView>,
    row: RowView,
    rid: Rid,
    n: nat,
)
    ensures
        same_columns(v, index_add_row(v, table, columns, row, rid, n)),
    decreases n,
{
    if n > 0 {
        lemma_add_columns(v, table, columns, row, rid, (n - 1) as nat);
        if let ValueView::Int(k) = row[n - 1] {
            lemma_insert_columns(
                v,
                index_add_row(v, table, columns, row, rid, (n - 1) as nat),
                table,
                columns[n - 1].name,
                k,
                rid,
            );
        }
    }
}

proof fn lemma_remove_columns(
    v: Seq<IndexView>,
    table: Seq<char>,
    columns: Seq<ColumnView>,
    row: RowView,
    n: nat,
)
    ensures
        same_columns(v, index_remove_row(v, table, columns, row, n)),
    decreases n,
{
    if n > 0 {
        lemma_remove_columns(v, table, columns, row, (n - 1) as nat);
        if let ValueView::Int(k) = row[n - 1] {
            lemma_delete_columns(
                v,
                index_remove_row(v, table, columns, row, (n - 1) as nat),
                table,
                columns[n - 1].name,
                k,
            );
        }
    }
}

proof fn lemma_change_columns(
    v: Seq<IndexView>,
    table: Seq<char>,
    columns: Seq<ColumnView>,
    a: RowView,
    b: RowView,
    rid: Rid,
    n: nat,
)
    ensures
        same_columns(v, index_change_row(v, table, columns, a, b, rid, n)),
    decreases n,
{
    if n > 0 {
        lemma_change_columns(v, table, columns, a, b, rid, (n - 1) as nat);
        let before = index_change_row(v, table, columns, a, b, rid, (n - 1) as nat);
        let name = columns[n - 1].name;
        let w = match a[n - 1] {
            ValueView::Int(key) => index_delete(before, table, name, key),
            _ => before,
        };
        if let ValueView::Int(k) = a[n - 1] {
            lemma_delete_columns(v, before, table, name, k);
        }
        if let ValueView::Int(k) = b[n - 1] {
            lemma_insert_columns(v, w, table, name, k, rid);
        }
    }
}

proof fn lemma_slot_columns(w: Work, s: Sweep, id: u32, slot: u16)
    ensures
        same_columns(w.indexes, sweep_slot(w, s, id, slot).indexes),
{
    let cols = s.schema.columns;
    if let Some(t) = page_get(w.page, slot as int) {
        if let Ok(row) = deserialized(cols, t) {
            lemma_remove_columns(w.indexes, s.table, cols, row, cols.len());
            lemma_change_columns(
                w.indexes,
                s.table,
                cols,
                row,
                updated_row(s, t),
                Rid { page_id: id, slot_id: slot },
                cols.len(),
            );
        }
    }
}

proof fn lemma_columns_chain(u: Seq<IndexView>, v: Seq<IndexView>, w: Seq<IndexView>)
    requires
        same_columns(u, v),
        same_columns(v, w),
    ensures
        same_columns(u, w),
{
    assert forall|t: Seq<char>, c: Seq<char>| #[trigger] index_get(w, t, c) is Some <==> index_get(
        u,
        t,
        c,
    ) is Some by {
        assert(index_get(v, t, c) is Some <==> index_get(u, t, c) is Some);
    }
}

proof fn lemma_slots_columns(w: Work, s: Sweep, id: u32, n: nat)
    ensures
        same_columns(w.indexes, sweep_slots(w, s, id, n).indexes),
    decreases n,
{
    if n > 0 {
        lemma_slots_columns(w, s, id, (n - 1) as nat);
        let v = sweep_slots(w, s, id, (n - 1) as nat);
        lemma_slot_columns(v, s, id, (n - 1) as u16);
        lemma_columns_chain(w.indexes, v.indexes, sweep_slot(v, s, id, (n - 1) as u16).indexes);
    }
}

proof fn lemma_pages_columns(db: DbView, s: Sweep, ids: Seq<u32>, n: nat)
    ensures
        same_columns(db.indexes, sweep_pages(db, s, ids, n).indexes),
        sweep_pages(db, s, ids, n).catalog == db.catalog,
    decreases n,
{
    if n > 0 {
        lemma_pages_columns(db, s, ids, (n - 1) as nat);
        let v = sweep_pages(db, s, ids, (n - 1) as nat);
        let id = ids[n - 1];
        if let Ok(d) = v.pages[id] {
            let w = Work { page: d, wal: v.wal, indexes: v.indexes };
            lemma_slots_columns(w, s, id, page_count(d) as nat);
            lemma_columns_chain(
                db.indexes,
                v.indexes,
                sweep_slots(w, s, id, page_count(d) as nat).indexes,
            );
        }
    }
}

proof fn lemma_same_only(db: DbView, after: DbView)
    requires
        only_keys(db),
        after.catalog == db.catalog,
        same_columns(db.indexes, after.indexes),
    ensures
        only_keys(after),
{
    assert forall|table: Seq<char>| after.catalog.get(table) is Some implies #[trigger] key_only(
        after,
        table,
    ) by {
        assert(key_only(db, table));
        assert forall|c: Seq<char>| #[trigger]
            index_get(after.indexes, table, c) is Some implies (after.catalog.get(
            table,
        )->0).primary_key == Some(c) by {
            assert(index_get(db.indexes, table, c) is Some);
        }
    }
}

/// Every statement, whether it succeeds or not, leaves indexes on primary keys only, but for a CREATE
/// TABLE that is refused after it made an index.
pub proof fn law_only_keys_are_indexed(db: DbView, stmt: StatementView)
    requires
        heap_ok(db),
        keys_ok(db),
        only_keys(db),
        db.num_pages < u32::MAX,
        stmt is CreateTable && execute(db, stmt).1 is Err ==> execute(db, stmt).0 == db,
    ensures
        only_keys(execute(db, stmt).0),
{
    let after = execute(db, stmt).0;
    match stmt {
        StatementView::CreateTable { table, columns } => {
            if execute(db, stmt).1 is Ok {
                lemma_create_only(db, table, columns);
            }
        },
        StatementView::Insert { table, values } => {
            if execute(db, stmt).1 is Ok {
                let k = lemma_insert_outcome(db, table, values);
                lemma_insert_index(db, table, values);
                let cols = (db.catalog.get(table)->0).columns;
                let t = serialized(cols, values)->Ok_0;
                lemma_add_columns(
                    db.indexes,
                    table,
                    cols,
                    values,
                    insert_rid(db, table, t.len()),
                    cols.len(),
                );
            }
            lemma_same_only(db, after);
        },
        StatementView::Select { .. } => {},
        StatementView::Delete { table, filter } => lemma_sweep_only(db, table, filter, None),
        StatementView::Update { table, assignments, filter } => lemma_sweep_only(
            db,
            table,
            filter,
            Some(assignments),
        ),
    }
}

proof fn lemma_sweep_only(
    db: DbView,
    table: Seq<char>,
    filter: Option<ExprView>,
    set: Option<Seq<AssignmentView>>,
)
    requires
        only_keys(db),
    ensures
        only_keys(sweep(db, table, filter, set).0),
{
    if db.catalog.get(table) is Some {
        let ids = table_pages(db.tables, table)->0;
        let begun = DbView { wal: wal_begin(db.wal), ..db };
        lemma_pages_columns(begun, sweep_of(db, table, filter, set), ids, ids.len());
        lemma_same_only(db, sweep(db, table, filter, set).0);
    }
}

proof fn lemma_create_only(db: DbView, table: Seq<char>, columns: Seq<ColumnView>)
    requires
        keys_ok(db),
        only_keys(db),
        create_table(db, table, columns).1 is Ok,
    ensures
        only_keys(create_table(db, table, columns).0),
{
    let after = create_table(db, table, columns).0;
    let schema = new_schema(table, columns);
    let names = table_names(db.catalog.tables);
    assert(table_names(after.catalog.tables) =~= names.push(table));
    assert forall|other: Seq<char>| after.catalog.get(other) is Some implies #[trigger] key_only(
        after,
        other,
    ) by {
        lemma_position_push(names, table, other, 0);
        lemma_position(names, other, 0);
        assert forall|c: Seq<char>| #[trigger]
            index_get(after.indexes, other, c) is Some implies (after.catalog.get(
            other,
        )->0).primary_key == Some(c) by {
            if let Some(key) = schema.primary_key {
                lemma_get_created(db.indexes, table, key, other, c);
            }
            if other == table {
                lemma_index_at(db.indexes, table, c, 0);
                assert(index_get(db.indexes, table, c) is None) by {
                    if let Some(i) = index_at(
                        db.indexes,
                        table,
                        c,
                        0,
                    ) {
                        assert(db.catalog.get(db.indexes[i].table) is Some);
                    }
                }
            } else {
                assert(key_only(db, other));
            }
        }
    }
}

} // verus!
