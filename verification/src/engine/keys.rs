//! Primary keys: the index on the primary key of a table leads to exactly the rows of the table, and
//! no two rows have equal primary keys.
use crate::engine::catalog::{
    column_names, deserialized, fits, law_row_fits, lemma_key_column, lemma_position, new_schema,
    serialized, table_names, SchemaView,
};
use crate::engine::changes::{
    all_rows, law_failed_sweep_changes_nothing, lemma_pages, lemma_same_heap, lemma_slot,
    lemma_slots, lemma_star_rows, lemma_survey_pages, lemma_survey_slots, sweepable, swept_over,
    swept_tuple, updated_row,
};
use crate::engine::contents::{
    cells_upto, heap_ok, insert_rid, law_select_reads_table, lemma_blank, lemma_good_list,
    lemma_insert_outcome, lemma_listed, lemma_lists_apart, lemma_put, lemma_serialized_parts,
    lemma_written_row, page_cells, page_good, table_cells,
};
use crate::engine::index_manager::{
    index_at, index_create, index_delete, index_get, index_has, index_insert, lemma_index_at,
    IndexView,
};
use crate::engine::model::{
    assign_check, assign_upto, assigns_duplicate, create_table, execute, index_add_row,
    index_change_row, index_remove_row, insert, judge, key_dups, key_in_use, last_assigned,
    msg_duplicate_key, same_value, slot_has_key, survey_pages, survey_slots, sweep, sweep_of,
    sweep_pages, sweep_slot, sweep_slots, table_pages, DbView, RowView, Sweep, Work,
};
use crate::engine::tables::{lemma_position_push, lemma_tables_put};
use crate::index::btree::{
    law_delete, law_insert, rid_of, sorted, unique, with_key, without_key, Entry,
};
use crate::index::node::Rid;
use crate::recovery::wal::wal_begin;
use crate::sql::ast::{
    AssignmentView, ColumnView, DataType, ExprView, SelectView, StatementView, ValueView,
};
use crate::storage::error::StorageError;
use crate::storage::page::{page_blank, page_body, page_count, page_get, page_wf, PAGE_SIZE};
use vstd::prelude::*;

verus! {

/// The bytes of the row of a table that a row pointer leads to.
pub open spec fn tuple_at(db: DbView, table: Seq<char>, rid: Rid) -> Option<Seq<u8>> {
    if (table_pages(db.tables, table)->0).contains(rid.page_id) {
        page_get(db.pages[rid.page_id]->Ok_0, rid.slot_id as int)
    } else {
        None
    }
}

/// The integer in the primary key column of a row.
pub open spec fn key_in(schema: SchemaView, row: RowView) -> Option<i64> {
    match row[schema.pk_col()->0] {
        ValueView::Int(k) => Some(k),
        _ => None,
    }
}

/// The integer in the primary key column of a stored row.
pub open spec fn key_of(schema: SchemaView, t: Seq<u8>) -> Option<i64> {
    match deserialized(schema.columns, t) {
        Ok(row) => key_in(schema, row),
        Err(_) => None,
    }
}

/// The keys of the rows of a table.
pub open spec fn keys_at(db: DbView, table: Seq<char>) -> spec_fn(Rid) -> Option<i64> {
    |rid: Rid|
        match tuple_at(db, table, rid) {
            Some(t) => key_of(db.catalog.get(table)->0, t),
            None => None,
        }
}

/// The primary key of a stored row.
pub open spec fn value_of(schema: SchemaView, t: Seq<u8>) -> Option<ValueView> {
    match deserialized(schema.columns, t) {
        Ok(row) => Some(row[schema.pk_col()->0]),
        Err(_) => None,
    }
}

/// The primary keys of the rows of a table.
pub open spec fn values_at(db: DbView, table: Seq<char>) -> spec_fn(Rid) -> Option<ValueView> {
    |rid: Rid|
        match tuple_at(db, table, rid) {
            Some(t) => value_of(db.catalog.get(table)->0, t),
            None => None,
        }
}

/// No two rows have equal primary keys.
pub open spec fn apart(values: spec_fn(Rid) -> Option<ValueView>) -> bool {
    forall|a: Rid, b: Rid|
        a != b && (#[trigger] values(a)) is Some && (#[trigger] values(b)) is Some ==> !same_value(
            values(a)->0,
            values(b)->0,
        )
}

/// No row but the one at `rid` has a primary key that is equal to `v`.
pub open spec fn free_but(
    values: spec_fn(Rid) -> Option<ValueView>,
    rid: Rid,
    v: ValueView,
) -> bool {
    forall|r: Rid|
        r != rid && (#[trigger] values(r)) is Some ==> !same_value(values(r)->0, v)
}

/// An index leads from each key to the one row that has it, and has no other keys.
pub open spec fn linked(e: Seq<Entry>, keys: spec_fn(Rid) -> Option<i64>) -> bool {
    &&& sorted(e)
    &&& unique(e)
    &&& forall|k: i64, rid: Rid| (#[trigger] rid_of(e, k)) == Some(rid) <==> #[trigger] keys(rid) == Some(k)
}

/// No two columns have the same name.
pub open spec fn columns_apart(columns: Seq<ColumnView>) -> bool {
    forall|i: int, j: int|
        0 <= i < j < columns.len() ==> (#[trigger] columns[i]).name != (#[trigger] columns[j]).name
}

/// The index on the primary key of a table leads to exactly the rows of the table, and no two rows
/// have equal primary keys.
pub open spec fn keyed(db: DbView, table: Seq<char>) -> bool {
    let schema = db.catalog.get(table)->0;
    schema.primary_key matches Some(key) ==> {
        &&& index_get(db.indexes, table, key) is Some
        &&& linked(index_get(db.indexes, table, key)->0, keys_at(db, table))
        &&& apart(values_at(db, table))
    }
}

/// Every table whose columns have different names has an index that leads from its primary keys to
/// its rows, and only tables have indexes.
pub open spec fn keys_ok(db: DbView) -> bool {
    &&& forall|table: Seq<char>|
        db.catalog.get(table) is Some && columns_apart((db.catalog.get(table)->0).columns)
            ==> #[trigger] keyed(db, table)
    &&& forall|i: int|
        0 <= i < db.indexes.len() ==> db.catalog.get((#[trigger] db.indexes[i]).table) is Some
}

// Indexes.

pub proof fn lemma_get_inserted(
    v: Seq<IndexView>,
    table: Seq<char>,
    column: Seq<char>,
    key: i64,
    rid: Rid,
    t2: Seq<char>,
    c2: Seq<char>,
)
    ensures
        index_get(index_insert(v, table, column, key, rid), t2, c2) == (match index_get(v, t2, c2) {
            Some(e) => Some(
                if t2 == table && c2 == column {
                    with_key(e, key, rid)
                } else {
                    e
                },
            ),
            None => None,
        }),
        index_insert(v, table, column, key, rid).len() == v.len(),
        forall|i: int|
            0 <= i < v.len() ==> (#[trigger] index_insert(v, table, column, key, rid)[i]).table
                == v[i].table,
{
    let w = index_insert(v, table, column, key, rid);
    lemma_index_at(v, table, column, 0);
    lemma_same_places(v, w, t2, c2, 0);
    lemma_index_at(v, t2, c2, 0);
}

pub proof fn lemma_get_deleted(
    v: Seq<IndexView>,
    table: Seq<char>,
    column: Seq<char>,
    key: i64,
    t2: Seq<char>,
    c2: Seq<char>,
)
    ensures
        index_get(index_delete(v, table, column, key), t2, c2) == (match index_get(v, t2, c2) {
            Some(e) => Some(
                if t2 == table && c2 == column {
                    without_key(e, key)
                } else {
                    e
                },
            ),
            None => None,
        }),
        index_delete(v, table, column, key).len() == v.len(),
        forall|i: int|
            0 <= i < v.len() ==> (#[trigger] index_delete(v, table, column, key)[i]).table
                == v[i].table,
{
    let w = index_delete(v, table, column, key);
    lemma_index_at(v, table, column, 0);
    lemma_same_places(v, w, t2, c2, 0);
    lemma_index_at(v, t2, c2, 0);
}

/// Indexes on the same columns are found at the same places.
proof fn lemma_same_places(
    v: Seq<IndexView>,
    w: Seq<IndexView>,
    table: Seq<char>,
    column: Seq<char>,
    i: int,
)
    requires
        0 <= i,
        w.len() == v.len(),
        forall|k: int|
            0 <= k < v.len() ==> (#[trigger] w[k]).table == v[k].table && w[k].column == v[k].column,
    ensures
        index_at(w, table, column, i) == index_at(v, table, column, i),
    decreases v.len() - i,
{
    if i < v.len() {
        assert(w[i].table == v[i].table);
        lemma_same_places(v, w, table, column, i + 1);
    }
}

pub proof fn lemma_get_created(
    v: Seq<IndexView>,
    table: Seq<char>,
    column: Seq<char>,
    t2: Seq<char>,
    c2: Seq<char>,
)
    ensures
        index_get(index_create(v, table, column), t2, c2) == (match index_get(v, t2, c2) {
            Some(e) => Some(e),
            None => if t2 == table && c2 == column {
                Some(Seq::empty())
            } else {
                None
            },
        }),
{
    if !index_has(v, table, column) {
        lemma_index_at(v, t2, c2, 0);
        lemma_pushed_place(v, IndexView { table, column, entries: Seq::empty() }, t2, c2, 0);
    }
}

/// Where an index is found after one was added at the end.
proof fn lemma_pushed_place(
    v: Seq<IndexView>,
    last: IndexView,
    table: Seq<char>,
    column: Seq<char>,
    i: int,
)
    requires
        0 <= i <= v.len(),
    ensures
        index_at(v.push(last), table, column, i) == (match index_at(v, table, column, i) {
            Some(k) => Some(k),
            None => if last.table == table && last.column == column {
                Some(v.len() as int)
            } else {
                None
            },
        }),
    decreases v.len() - i,
{
    let w = v.push(last);
    if i < v.len() {
        assert(w[i] == v[i]);
        lemma_pushed_place(v, last, table, column, i + 1);
    } else {
        assert(w[i] == last);
        assert(index_at(w, table, column, i + 1) is None);
    }
}

/// What adding a row does to the index on column `i`.
proof fn lemma_row_added(
    v: Seq<IndexView>,
    table: Seq<char>,
    columns: Seq<ColumnView>,
    row: RowView,
    rid: Rid,
    n: nat,
    i: int,
)
    requires
        n <= columns.len(),
        0 <= i < columns.len(),
        columns_apart(columns),
    ensures
        index_get(index_add_row(v, table, columns, row, rid, n), table, columns[i].name) == (
        match index_get(v, table, columns[i].name) {
            Some(e) => Some(
                match row[i] {
                    ValueView::Int(k) => if i < n {
                        with_key(e, k, rid)
                    } else {
                        e
                    },
                    _ => e,
                },
            ),
            None => None,
        }),
    decreases n,
{
    if n > 0 {
        lemma_row_added(v, table, columns, row, rid, (n - 1) as nat, i);
        if let ValueView::Int(k) = row[n - 1] {
            let before = index_add_row(v, table, columns, row, rid, (n - 1) as nat);
            lemma_get_inserted(
                before,
                table,
                columns[n - 1].name,
                k,
                rid,
                table,
                columns[i].name,
            );
            assert(i != n - 1 ==> columns[i].name != columns[n - 1].name);
        }
    }
}

/// What removing a row does to the index on column `i`.
proof fn lemma_row_removed(
    v: Seq<IndexView>,
    table: Seq<char>,
    columns: Seq<ColumnView>,
    row: RowView,
    n: nat,
    i: int,
)
    requires
        n <= columns.len(),
        0 <= i < columns.len(),
        columns_apart(columns),
    ensures
        index_get(index_remove_row(v, table, columns, row, n), table, columns[i].name) == (
        match index_get(v, table, columns[i].name) {
            Some(e) => Some(
                match row[i] {
                    ValueView::Int(k) => if i < n {
                        without_key(e, k)
                    } else {
                        e
                    },
                    _ => e,
                },
            ),
            None => None,
        }),
    decreases n,
{
    if n > 0 {
        lemma_row_removed(v, table, columns, row, (n - 1) as nat, i);
        if let ValueView::Int(k) = row[n - 1] {
            let before = index_remove_row(v, table, columns, row, (n - 1) as nat);
            lemma_get_deleted(before, table, columns[n - 1].name, k, table, columns[i].name);
            assert(i != n - 1 ==> columns[i].name != columns[n - 1].name);
        }
    }
}

/// An index without the key of a row.
pub open spec fn key_taken(e: Seq<Entry>, v: ValueView) -> Seq<Entry> {
    match v {
        ValueView::Int(k) => without_key(e, k),
        _ => e,
    }
}

/// An index with the key of a row.
pub open spec fn key_given(e: Seq<Entry>, v: ValueView, rid: Rid) -> Seq<Entry> {
    match v {
        ValueView::Int(k) => with_key(e, k, rid),
        _ => e,
    }
}

/// What changing a row does to the index on column `i`.
proof fn lemma_row_changed(
    v: Seq<IndexView>,
    table: Seq<char>,
    columns: Seq<ColumnView>,
    a: RowView,
    b: RowView,
    rid: Rid,
    n: nat,
    i: int,
)
    requires
        n <= columns.len(),
        0 <= i < columns.len(),
        columns_apart(columns),
    ensures
        index_get(index_change_row(v, table, columns, a, b, rid, n), table, columns[i].name) == (
        match index_get(v, table, columns[i].name) {
            Some(e) => Some(
                if i < n {
                    key_given(key_taken(e, a[i]), b[i], rid)
                } else {
                    e
                },
            ),
            None => None,
        }),
    decreases n,
{
    if n > 0 {
        lemma_row_changed(v, table, columns, a, b, rid, (n - 1) as nat, i);
        let before = index_change_row(v, table, columns, a, b, rid, (n - 1) as nat);
        let name = columns[n - 1].name;
        assert(i != n - 1 ==> columns[i].name != name);
        let w = match a[n - 1] {
            ValueView::Int(key) => index_delete(before, table, name, key),
            _ => before,
        };
        if let ValueView::Int(k) = a[n - 1] {
            lemma_get_deleted(before, table, name, k, table, columns[i].name);
        }
        if let ValueView::Int(k) = b[n - 1] {
            lemma_get_inserted(w, table, name, k, rid, table, columns[i].name);
        }
    }
}

/// Two lists of indexes with indexes of the same tables, alike but for those of `table`.
pub open spec fn others_kept(v: Seq<IndexView>, w: Seq<IndexView>, table: Seq<char>) -> bool {
    &&& w.len() == v.len()
    &&& forall|i: int| 0 <= i < v.len() ==> (#[trigger] w[i]).table == v[i].table
    &&& forall|t: Seq<char>, c: Seq<char>|
        t != table ==> #[trigger] index_get(w, t, c) == index_get(v, t, c)
}

pub proof fn lemma_kept_insert(
    u: Seq<IndexView>,
    v: Seq<IndexView>,
    table: Seq<char>,
    column: Seq<char>,
    key: i64,
    rid: Rid,
)
    requires
        others_kept(u, v, table),
    ensures
        others_kept(u, index_insert(v, table, column, key, rid), table),
{
    let w = index_insert(v, table, column, key, rid);
    lemma_get_inserted(v, table, column, key, rid, table, column);
    assert forall|t: Seq<char>, c: Seq<char>| t != table implies #[trigger] index_get(w, t, c)
        == index_get(u, t, c) by {
        lemma_get_inserted(v, table, column, key, rid, t, c);
        assert(index_get(v, t, c) == index_get(u, t, c));
    }
    assert forall|i: int| 0 <= i < u.len() implies (#[trigger] w[i]).table == u[i].table by {
        assert(w[i].table == v[i].table);
    }
}

proof fn lemma_kept_delete(
    u: Seq<IndexView>,
    v: Seq<IndexView>,
    table: Seq<char>,
    column: Seq<char>,
    key: i64,
)
    requires
        others_kept(u, v, table),
    ensures
        others_kept(u, index_delete(v, table, column, key), table),
{
    let w = index_delete(v, table, column, key);
    lemma_get_deleted(v, table, column, key, table, column);
    assert forall|t: Seq<char>, c: Seq<char>| t != table implies #[trigger] index_get(w, t, c)
        == index_get(u, t, c) by {
        lemma_get_deleted(v, table, column, key, t, c);
        assert(index_get(v, t, c) == index_get(u, t, c));
    }
    assert forall|i: int| 0 <= i < u.len() implies (#[trigger] w[i]).table == u[i].table by {
        assert(w[i].table == v[i].table);
    }
}

proof fn lemma_kept_add_row(
    v: Seq<IndexView>,
    table: Seq<char>,
    columns: Seq<ColumnView>,
    row: RowView,
    rid: Rid,
    n: nat,
)
    ensures
        others_kept(v, index_add_row(v, table, columns, row, rid, n), table),
    decreases n,
{
    if n > 0 {
        lemma_kept_add_row(v, table, columns, row, rid, (n - 1) as nat);
        if let ValueView::Int(k) = row[n - 1] {
            lemma_kept_insert(
                v,
                index_add_row(v, table, columns, row, rid, (n - 1) as nat),
                table,
                columns[n - 1].name,
                k,
                rid,
            );
        }
    }
}

proof fn lemma_kept_remove_row(
    v: Seq<IndexView>,
    table: Seq<char>,
    columns: Seq<ColumnView>,
    row: RowView,
    n: nat,
)
    ensures
        others_kept(v, index_remove_row(v, table, columns, row, n), table),
    decreases n,
{
    if n > 0 {
        lemma_kept_remove_row(v, table, columns, row, (n - 1) as nat);
        if let ValueView::Int(k) = row[n - 1] {
            lemma_kept_delete(
                v,
                index_remove_row(v, table, columns, row, (n - 1) as nat),
                table,
                columns[n - 1].name,
                k,
            );
        }
    }
}

proof fn lemma_kept_change_row(
    v: Seq<IndexView>,
    table: Seq<char>,
    columns: Seq<ColumnView>,
    a: RowView,
    b: RowView,
    rid: Rid,
    n: nat,
)
    ensures
        others_kept(v, index_change_row(v, table, columns, a, b, rid, n), table),
    decreases n,
{
    if n > 0 {
        lemma_kept_change_row(v, table, columns, a, b, rid, (n - 1) as nat);
        let before = index_change_row(v, table, columns, a, b, rid, (n - 1) as nat);
        let name = columns[n - 1].name;
        let w = match a[n - 1] {
            ValueView::Int(key) => index_delete(before, table, name, key),
            _ => before,
        };
        if let ValueView::Int(k) = a[n - 1] {
            lemma_kept_delete(v, before, table, name, k);
        }
        if let ValueView::Int(k) = b[n - 1] {
            lemma_kept_insert(v, w, table, name, k, rid);
        }
    }
}

// Links.

/// Taking the key of the row at `rid` out of an index.
proof fn lemma_unlink(
    e: Seq<Entry>,
    keys: spec_fn(Rid) -> Option<i64>,
    after: spec_fn(Rid) -> Option<i64>,
    rid: Rid,
    v: ValueView,
)
    requires
        linked(e, keys),
        keys(rid) == (match v {
            ValueView::Int(k) => Some(k),
            _ => None,
        }),
        after(rid) is None,
        forall|r: Rid| r != rid ==> #[trigger] after(r) == keys(r),
    ensures
        linked(key_taken(e, v), after),
{
    if let ValueView::Int(k0) = v {
        let f = without_key(e, k0);
        law_delete(e, k0, k0);
        assert(rid_of(e, k0) == Some(rid));
        assert forall|k: i64, r: Rid| (#[trigger] rid_of(f, k)) == Some(r) <==> #[trigger] after(r)
            == Some(k) by {
            law_delete(e, k0, k);
            assert(rid_of(e, k) == Some(r) <==> keys(r) == Some(k));
        }
    } else {
        assert forall|k: i64, r: Rid| (#[trigger] rid_of(e, k)) == Some(r) <==> #[trigger] after(r)
            == Some(k) by {
            assert(rid_of(e, k) == Some(r) <==> keys(r) == Some(k));
        }
    }
}

/// Putting the key of a row at `rid` into an index.
pub proof fn lemma_link(
    e: Seq<Entry>,
    keys: spec_fn(Rid) -> Option<i64>,
    after: spec_fn(Rid) -> Option<i64>,
    rid: Rid,
    v: ValueView,
)
    requires
        linked(e, keys),
        keys(rid) is None,
        v matches ValueView::Int(k) ==> rid_of(e, k) is None,
        after(rid) == (match v {
            ValueView::Int(k) => Some(k),
            _ => None,
        }),
        forall|r: Rid| r != rid ==> #[trigger] after(r) == keys(r),
    ensures
        linked(key_given(e, v, rid), after),
{
    if let ValueView::Int(k1) = v {
        let f = with_key(e, k1, rid);
        law_insert(e, k1, rid, k1);
        assert forall|k: i64, r: Rid| (#[trigger] rid_of(f, k)) == Some(r) <==> #[trigger] after(r)
            == Some(k) by {
            law_insert(e, k1, rid, k);
            assert(rid_of(e, k) == Some(r) <==> keys(r) == Some(k));
        }
    } else {
        assert forall|k: i64, r: Rid| (#[trigger] rid_of(e, k)) == Some(r) <==> #[trigger] after(r)
            == Some(k) by {
            assert(rid_of(e, k) == Some(r) <==> keys(r) == Some(k));
        }
    }
}

pub proof fn lemma_linked_same(
    e: Seq<Entry>,
    keys: spec_fn(Rid) -> Option<i64>,
    after: spec_fn(Rid) -> Option<i64>,
)
    requires
        linked(e, keys),
        forall|r: Rid| #[trigger] after(r) == keys(r),
    ensures
        linked(e, after),
{
    assert forall|k: i64, r: Rid| (#[trigger] rid_of(e, k)) == Some(r) <==> #[trigger] after(r)
        == Some(k) by {
        assert(rid_of(e, k) == Some(r) <==> keys(r) == Some(k));
    }
}

// Equal values.

proof fn lemma_same(a: ValueView, b: ValueView)
    ensures
        same_value(a, b) == same_value(b, a),
{
}

/// Equality of values of one type.
proof fn lemma_same_chain(ty: DataType, a: ValueView, b: ValueView, c: ValueView)
    requires
        fits(ty, a),
        fits(ty, b),
        fits(ty, c),
        same_value(a, b),
        same_value(b, c),
    ensures
        same_value(a, c),
{
}

/// Giving the row at `rid` a primary key that no other row has, or taking it away.
proof fn lemma_apart_step(
    values: spec_fn(Rid) -> Option<ValueView>,
    after: spec_fn(Rid) -> Option<ValueView>,
    rid: Rid,
)
    requires
        apart(values),
        forall|r: Rid| r != rid ==> #[trigger] after(r) == values(r),
        after(rid) matches Some(v) ==> free_but(values, rid, v),
    ensures
        apart(after),
{
    assert forall|a: Rid, b: Rid|
        a != b && (#[trigger] after(a)) is Some && (#[trigger] after(b)) is Some implies !same_value(
        after(a)->0,
        after(b)->0,
    ) by {
        if a == rid {
            assert(values(b) == after(b));
            lemma_same(after(a)->0, after(b)->0);
        } else if b == rid {
            assert(values(a) == after(a));
        } else {
            assert(values(a) == after(a) && values(b) == after(b));
        }
    }
}

pub proof fn lemma_apart_same(
    values: spec_fn(Rid) -> Option<ValueView>,
    after: spec_fn(Rid) -> Option<ValueView>,
)
    requires
        apart(values),
        forall|r: Rid| #[trigger] after(r) == values(r),
    ensures
        apart(after),
{
    assert forall|a: Rid, b: Rid|
        a != b && (#[trigger] after(a)) is Some && (#[trigger] after(b)) is Some implies !same_value(
        after(a)->0,
        after(b)->0,
    ) by {
        assert(values(a) == after(a) && values(b) == after(b));
    }
}

/// The integer among the primary keys.
proof fn lemma_key_value(db: DbView, table: Seq<char>, r: Rid)
    ensures
        keys_at(db, table)(r) == (match values_at(db, table)(r) {
            Some(ValueView::Int(k)) => Some(k),
            _ => None,
        }),
{
}

/// The primary key of a row has the type of its column.
proof fn lemma_value_fits(db: DbView, table: Seq<char>, r: Rid)
    requires
        db.catalog.get(table) is Some,
        0 <= (db.catalog.get(table)->0).pk_col()->0 < (db.catalog.get(table)->0).columns.len(),
        values_at(db, table)(r) is Some,
    ensures
        ({
            let schema = db.catalog.get(table)->0;
            fits(schema.columns[schema.pk_col()->0].ty, values_at(db, table)(r)->0)
        }),
{
    law_row_fits((db.catalog.get(table)->0).columns, tuple_at(db, table, r)->0);
}

/// What the check for duplicates finds: no row has the primary key.
proof fn lemma_unused(db: DbView, table: Seq<char>, v: ValueView)
    requires
        db.catalog.get(table) is Some,
        ({
            let schema = db.catalog.get(table)->0;
            &&& schema == new_schema(table, schema.columns)
            &&& schema.primary_key is Some
            &&& fits(schema.columns[schema.pk_col()->0].ty, v)
            &&& !key_in_use(db, schema, table, v)
        }),
        table_pages(db.tables, table) is Some,
        forall|k: int|
            0 <= k < (table_pages(db.tables, table)->0).len()
                ==> db.pages[#[trigger] (table_pages(db.tables, table)->0)[k]] is Ok,
        keyed(db, table),
    ensures
        forall|r: Rid|
            (#[trigger] values_at(db, table)(r)) is Some ==> !same_value(
                values_at(db, table)(r)->0,
                v,
            ),
{
    let schema = db.catalog.get(table)->0;
    lemma_key_column(table, schema.columns);
    let f = values_at(db, table);
    let ids = table_pages(db.tables, table)->0;
    assert forall|r: Rid| (#[trigger] f(r)) is Some implies !same_value(f(r)->0, v) by {
        lemma_value_fits(db, table, r);
        if same_value(f(r)->0, v) {
            if let ValueView::Int(key) = v {
                let e = index_get(db.indexes, table, schema.primary_key->0)->0;
                lemma_key_value(db, table, r);
                let keys = keys_at(db, table);
                assert(keys(r) == Some(key));
                assert(rid_of(e, key) == Some(r));
            } else {
                let k = choose|k: int| 0 <= k < ids.len() && ids[k] == r.page_id;
                assert(db.pages[ids[k]] is Ok);
                assert(slot_has_key(db.pages, schema, ids[k], r.slot_id as int, v));
            }
        }
    }
}

// Rows.

/// What assignments that pass the check make of the primary key: it stays, or it becomes what one of
/// them, which is of no duplicate, assigns.
proof fn lemma_assigned_key(s: Sweep, given: bool, row: RowView, n: nat) -> (k: int)
    requires
        s.set is Some,
        s.schema.primary_key is Some,
        s.schema.pk_col() is Some,
        row.len() == s.schema.columns.len(),
        n <= (s.set->0).len(),
        assign_check(s, given, row, n) is Ok,
        assign_upto(s.schema, row, s.set->0, n) is Ok,
    ensures
        ({
            let set = s.set->0;
            let r = assign_upto(s.schema, row, set, n)->Ok_0;
            let i = s.schema.pk_col()->0;
            let key = s.schema.primary_key->0;
            &&& r.len() == row.len()
            &&& match last_assigned(set, key, n) {
                None => r[i] == row[i],
                Some(v) => {
                    &&& r[i] == v
                    &&& 0 <= k < n
                    &&& set[k].column == key
                    &&& set[k].value == v
                    &&& !assigns_duplicate(s, given, row, k)
                    &&& fits(s.schema.columns[i].ty, v)
                },
            }
        }),
    decreases n,
{
    if n > 0 {
        let k = lemma_assigned_key(s, given, row, (n - 1) as nat);
        let set = s.set->0;
        let a = set[n - 1];
        let names = column_names(s.schema.columns);
        lemma_position(names, a.column, 0);
        lemma_position(names, s.schema.primary_key->0, 0);
        if a.column == s.schema.primary_key->0 {
            n - 1
        } else {
            k
        }
    } else {
        0
    }
}

/// The assignments that are of no duplicate when the statement starts are of primary keys that no
/// row has.
pub open spec fn unused(db: DbView, s: Sweep) -> bool {
    let set = s.set->0;
    let i = s.schema.pk_col()->0;
    forall|k: int, r: Rid|
        0 <= k < set.len() && (#[trigger] set[k]).column == s.schema.primary_key->0 && !s.dups[k]
            && fits(s.schema.columns[i].ty, set[k].value) && (#[trigger] values_at(
            db,
            s.table,
        )(r)) is Some ==> !same_value(values_at(db, s.table)(r)->0, set[k].value)
}

/// Where the statement did not change a row before, what it found at its start still holds.
pub open spec fn still_unused(db: DbView, s: Sweep, given: bool) -> bool {
    s.set is Some && s.schema.primary_key is Some && columns_apart(s.schema.columns) && !given
        ==> unused(db, s)
}

/// An UPDATE that passes the check gives a row a primary key that no other row has.
proof fn lemma_update_free(x: DbView, s: Sweep, given: bool, rid: Rid, row: RowView)
    requires
        s.set is Some,
        x.catalog.get(s.table) == Some(s.schema),
        s.schema == new_schema(s.table, s.schema.columns),
        s.schema.primary_key is Some,
        columns_apart(s.schema.columns),
        still_unused(x, s, given),
        apart(values_at(x, s.table)),
        values_at(x, s.table)(rid) == Some(row[s.schema.pk_col()->0]),
        row.len() == s.schema.columns.len(),
        assign_check(s, given, row, (s.set->0).len()) is Ok,
        assign_upto(s.schema, row, s.set->0, (s.set->0).len()) is Ok,
    ensures
        ({
            let r = assign_upto(s.schema, row, s.set->0, (s.set->0).len())->Ok_0;
            free_but(values_at(x, s.table), rid, r[s.schema.pk_col()->0])
        }),
{
    let set = s.set->0;
    let i = s.schema.pk_col()->0;
    let ty = s.schema.columns[i].ty;
    let f = values_at(x, s.table);
    lemma_key_column(s.table, s.schema.columns);
    let new_row = assign_upto(s.schema, row, set, set.len())->Ok_0;
    let k = lemma_assigned_key(s, given, row, set.len());
    let y = new_row[i];
    lemma_value_fits(x, s.table, rid);
    assert forall|r: Rid| r != rid && (#[trigger] f(r)) is Some implies !same_value(f(r)->0, y) by {
        let z = f(r)->0;
        lemma_value_fits(x, s.table, r);
        assert(f(rid) is Some);
        assert(!same_value(z, row[i]));
        if last_assigned(set, s.schema.primary_key->0, set.len()) is Some && same_value(z, y) {
            lemma_same(z, y);
            lemma_same(row[i], y);
            if same_value(row[i], y) {
                lemma_same_chain(ty, z, y, row[i]);
            } else {
                lemma_same_chain(ty, y, z, y);
                assert(!s.dups[k]);
                assert(!given);
                assert(set[k].value == y);
            }
        }
    }
}

/// A database in the middle of a sweep of page `id`.
pub open spec fn work_db(db: DbView, id: u32, w: Work) -> DbView {
    DbView { pages: db.pages.insert(id, Ok(w.page)), wal: w.wal, indexes: w.indexes, ..db }
}

/// What a sweep of page `id` works on: one of the pages of the table.
pub open spec fn sweep_ready(db: DbView, s: Sweep, id: u32) -> bool {
    &&& db.catalog.get(s.table) == Some(s.schema)
    &&& s.schema == new_schema(s.table, s.schema.columns)
    &&& table_pages(db.tables, s.table) is Some
    &&& (table_pages(db.tables, s.table)->0).contains(id)
}

/// Tables with the same rows have the same primary keys.
pub proof fn lemma_values_alike(db: DbView, after: DbView, table: Seq<char>)
    requires
        apart(values_at(db, table)),
        after.catalog.get(table) == db.catalog.get(table),
        forall|r: Rid| tuple_at(after, table, r) == #[trigger] tuple_at(db, table, r),
    ensures
        apart(values_at(after, table)),
{
    let f = values_at(db, table);
    let g = values_at(after, table);
    assert forall|r: Rid| #[trigger] g(r) == f(r) by {
        assert(tuple_at(after, table, r) == tuple_at(db, table, r));
    }
    lemma_apart_same(f, g);
}

/// Deleting a row takes its key out of the index.
proof fn lemma_keyed_delete(db: DbView, s: Sweep, id: u32, w: Work, slot: u16, row: RowView)
    requires
        sweep_ready(db, s, id),
        columns_apart(s.schema.columns),
        page_wf(w.page),
        page_body(w.page) == w.page,
        keyed(work_db(db, id, w), s.table),
        s.set is None,
        page_get(w.page, slot as int) is Some,
        deserialized(s.schema.columns, page_get(w.page, slot as int)->0) == Ok::<
            RowView,
            Seq<char>,
        >(row),
        sweepable(s, page_get(w.page, slot as int)->0),
        swept_tuple(s, page_get(w.page, slot as int)->0) is None,
    ensures
        keyed(work_db(db, id, sweep_slot(w, s, id, slot)), s.table),
{
    if let Some(key) = s.schema.primary_key {
        let v = sweep_slot(w, s, id, slot);
        let x = work_db(db, id, w);
        let y = work_db(db, id, v);
        let cols = s.schema.columns;
        lemma_key_column(s.table, cols);
        let i = s.schema.pk_col()->0;
        let rid = Rid { page_id: id, slot_id: slot };
        let f = keys_at(x, s.table);
        let g = keys_at(y, s.table);
        let e = index_get(w.indexes, s.table, key)->0;
        law_row_fits(cols, page_get(w.page, slot as int)->0);
        lemma_slot(w, s, id, slot);
        lemma_row_removed(w.indexes, s.table, cols, row, cols.len(), i);
        assert(index_get(v.indexes, s.table, key) == Some(key_taken(e, row[i])));
        assert forall|r: Rid| r != rid implies #[trigger] g(r) == f(r) by {
            if r.page_id == id {
                assert(page_get(v.page, r.slot_id as int) == page_get(w.page, r.slot_id as int));
            }
        }
        assert(x.pages[id]->Ok_0 == w.page);
        assert(y.pages[id]->Ok_0 == v.page);
        assert(tuple_at(x, s.table, rid) == page_get(w.page, slot as int));
        assert(f(rid) == key_in(s.schema, row));
        assert(tuple_at(y, s.table, rid) is None);
        assert(g(rid) is None);
        lemma_unlink(e, f, g, rid, row[i]);
        let vf = values_at(x, s.table);
        let vg = values_at(y, s.table);
        assert forall|r: Rid| r != rid implies #[trigger] vg(r) == vf(r) by {
            if r.page_id == id {
                assert(page_get(v.page, r.slot_id as int) == page_get(w.page, r.slot_id as int));
            }
        }
        lemma_apart_step(vf, vg, rid);
    }
}

/// Updating a row replaces its key in the index.
proof fn lemma_keyed_update(
    db: DbView,
    s: Sweep,
    id: u32,
    w: Work,
    given: bool,
    slot: u16,
    row: RowView,
)
    requires
        sweep_ready(db, s, id),
        columns_apart(s.schema.columns),
        page_wf(w.page),
        page_body(w.page) == w.page,
        keyed(work_db(db, id, w), s.table),
        s.set is Some,
        page_get(w.page, slot as int) is Some,
        deserialized(s.schema.columns, page_get(w.page, slot as int)->0) == Ok::<
            RowView,
            Seq<char>,
        >(row),
        still_unused(work_db(db, id, w), s, given),
        judge(s, given, page_get(w.page, slot as int)->0) is Ok,
        swept_over(s, page_get(w.page, slot as int)->0),
    ensures
        keyed(work_db(db, id, sweep_slot(w, s, id, slot)), s.table),
{
    if let Some(key) = s.schema.primary_key {
        let v = sweep_slot(w, s, id, slot);
        let x = work_db(db, id, w);
        let y = work_db(db, id, v);
        let cols = s.schema.columns;
        let set = s.set->0;
        let t = page_get(w.page, slot as int)->0;
        lemma_key_column(s.table, cols);
        let i = s.schema.pk_col()->0;
        let rid = Rid { page_id: id, slot_id: slot };
        let f = keys_at(x, s.table);
        let g = keys_at(y, s.table);
        let h = |r: Rid|
            if r == rid {
                None
            } else {
                f(r)
            };
        let e = index_get(w.indexes, s.table, key)->0;
        law_row_fits(cols, t);
        lemma_slot(w, s, id, slot);
        let new_row = updated_row(s, t);
        let u = serialized(cols, new_row)->Ok_0;
        assert(t.len() <= PAGE_SIZE);
        lemma_written_row(cols, new_row, u, t.subrange(u.len() as int, t.len() as int));
        let k = lemma_assigned_key(s, given, row, set.len());
        lemma_row_changed(w.indexes, s.table, cols, row, new_row, rid, cols.len(), i);
        let e1 = key_taken(e, row[i]);
        assert(index_get(v.indexes, s.table, key) == Some(key_given(e1, new_row[i], rid)));
        assert forall|r: Rid| r != rid implies #[trigger] g(r) == f(r) by {
            if r.page_id == id {
                assert(page_get(v.page, r.slot_id as int) == page_get(w.page, r.slot_id as int));
            }
        }
        assert(x.pages[id]->Ok_0 == w.page);
        assert(y.pages[id]->Ok_0 == v.page);
        assert(tuple_at(x, s.table, rid) == Some(t));
        assert(f(rid) == key_in(s.schema, row));
        assert(tuple_at(y, s.table, rid) == swept_tuple(s, t));
        assert(g(rid) == key_in(s.schema, new_row));
        lemma_unlink(e, f, h, rid, row[i]);
        let vf = values_at(x, s.table);
        let vg = values_at(y, s.table);
        assert(vf(rid) == Some(row[i]));
        assert(vg(rid) == Some(new_row[i]));
        assert forall|r: Rid| r != rid implies #[trigger] vg(r) == vf(r) by {
            if r.page_id == id {
                assert(page_get(v.page, r.slot_id as int) == page_get(w.page, r.slot_id as int));
            }
        }
        lemma_update_free(x, s, given, rid, row);
        lemma_apart_step(vf, vg, rid);
        if let ValueView::Int(k1) = new_row[i] {
            if let Some(r) = rid_of(e1, k1) {
                assert(h(r) == Some(k1));
                lemma_key_value(x, s.table, r);
                assert(vf(r) == Some(ValueView::Int(k1)));
                assert(same_value(vf(r)->0, new_row[i]));
            }
        }
        lemma_link(e1, h, g, rid, new_row[i]);
    }
}

/// Sweeping a slot keeps the keys of the table, and the indexes of other tables. A row that is not
/// selected changes nothing.
proof fn lemma_keyed_slot(db: DbView, s: Sweep, id: u32, w: Work, given: bool, slot: u16)
    requires
        sweep_ready(db, s, id),
        columns_apart(s.schema.columns) ==> keyed(work_db(db, id, w), s.table),
        page_wf(w.page),
        page_body(w.page) == w.page,
        page_get(w.page, slot as int) matches Some(t) ==> judge(s, given, t) is Ok,
        still_unused(work_db(db, id, w), s, given),
    ensures
        columns_apart(s.schema.columns) ==> keyed(
            work_db(db, id, sweep_slot(w, s, id, slot)),
            s.table,
        ),
        others_kept(w.indexes, sweep_slot(w, s, id, slot).indexes, s.table),
        page_get(w.page, slot as int) matches Some(t) ==> judge(s, given, t)->Ok_0 || sweep_slot(
            w,
            s,
            id,
            slot,
        ) == w,
        page_get(w.page, slot as int) is None ==> sweep_slot(w, s, id, slot) == w,
{
    let cols = s.schema.columns;
    match page_get(w.page, slot as int) {
        None => {},
        Some(t) => {
            let row = deserialized(cols, t)->Ok_0;
            if swept_over(s, t) {
                if s.set is None {
                    lemma_kept_remove_row(w.indexes, s.table, cols, row, cols.len());
                    if columns_apart(cols) {
                        lemma_keyed_delete(db, s, id, w, slot, row);
                    }
                } else {
                    let rid = Rid { page_id: id, slot_id: slot };
                    lemma_kept_change_row(
                        w.indexes,
                        s.table,
                        cols,
                        row,
                        updated_row(s, t),
                        rid,
                        cols.len(),
                    );
                    if columns_apart(cols) {
                        lemma_keyed_update(db, s, id, w, given, slot, row);
                    }
                }
            }
        },
    }
}

proof fn lemma_keyed_slots(db: DbView, s: Sweep, id: u32, w: Work, given: bool, n: nat)
    requires
        sweep_ready(db, s, id),
        columns_apart(s.schema.columns) ==> keyed(work_db(db, id, w), s.table),
        page_wf(w.page),
        page_body(w.page) == w.page,
        n <= page_count(w.page),
        survey_slots(s, given, w.page, n) is Ok,
        still_unused(work_db(db, id, w), s, given),
    ensures
        columns_apart(s.schema.columns) ==> keyed(
            work_db(db, id, sweep_slots(w, s, id, n)),
            s.table,
        ),
        others_kept(w.indexes, sweep_slots(w, s, id, n).indexes, s.table),
        survey_slots(s, given, w.page, n)->Ok_0 || sweep_slots(w, s, id, n) == w,
        given ==> survey_slots(s, given, w.page, n)->Ok_0,
    decreases n,
{
    if n > 0 {
        let m = (n - 1) as nat;
        lemma_keyed_slots(db, s, id, w, given, m);
        lemma_survey_slots(s, given, w.page, m);
        lemma_slots(w, s, id, m);
        let g = survey_slots(s, given, w.page, m)->Ok_0;
        let v = sweep_slots(w, s, id, m);
        assert(page_get(v.page, m as int) == page_get(w.page, m as int));
        lemma_keyed_slot(db, s, id, v, g, m as u16);
        lemma_kept_chain(
            w.indexes,
            v.indexes,
            sweep_slot(v, s, id, m as u16).indexes,
            s.table,
        );
    }
}

pub proof fn lemma_kept_chain(
    u: Seq<IndexView>,
    v: Seq<IndexView>,
    w: Seq<IndexView>,
    table: Seq<char>,
)
    requires
        others_kept(u, v, table),
        others_kept(v, w, table),
    ensures
        others_kept(u, w, table),
{
    assert forall|t: Seq<char>, c: Seq<char>| t != table implies #[trigger] index_get(w, t, c)
        == index_get(u, t, c) by {
        assert(index_get(v, t, c) == index_get(u, t, c));
    }
    assert forall|i: int| 0 <= i < u.len() implies (#[trigger] w[i]).table == u[i].table by {
        assert(w[i].table == v[i].table);
    }
}

/// Two databases with the same rows in a table and the same index on its primary key.
proof fn lemma_keyed_alike(db: DbView, after: DbView, table: Seq<char>)
    requires
        keyed(db, table),
        after.catalog.get(table) == db.catalog.get(table),
        table_pages(after.tables, table) == table_pages(db.tables, table),
        forall|id: u32|
            (table_pages(db.tables, table)->0).contains(id) ==> #[trigger] after.pages[id]
                == db.pages[id],
        forall|c: Seq<char>|
            index_get(db.indexes, table, c) is Some ==> #[trigger] index_get(
                after.indexes,
                table,
                c,
            ) == index_get(db.indexes, table, c),
    ensures
        keyed(after, table),
{
    let schema = db.catalog.get(table)->0;
    if let Some(key) = schema.primary_key {
        let f = keys_at(db, table);
        let g = keys_at(after, table);
        assert forall|r: Rid| #[trigger] g(r) == f(r) by {
            if (table_pages(db.tables, table)->0).contains(r.page_id) {
                assert(after.pages[r.page_id] == db.pages[r.page_id]);
            }
        }
        lemma_linked_same(index_get(db.indexes, table, key)->0, f, g);
        assert(index_get(after.indexes, table, key) == index_get(db.indexes, table, key));
        assert forall|r: Rid| tuple_at(after, table, r) == #[trigger] tuple_at(db, table, r) by {
            if (table_pages(db.tables, table)->0).contains(r.page_id) {
                assert(after.pages[r.page_id] == db.pages[r.page_id]);
            }
        }
        lemma_values_alike(db, after, table);
    }
}

proof fn lemma_keyed_pages(db: DbView, s: Sweep, ids: Seq<u32>, n: nat)
    requires
        heap_ok(db),
        n <= ids.len(),
        table_pages(db.tables, s.table) == Some(ids),
        db.catalog.get(s.table) == Some(s.schema),
        s.schema == new_schema(s.table, s.schema.columns),
        columns_apart(s.schema.columns) ==> keyed(db, s.table),
        survey_pages(db.pages, s, ids, ids.len()) is Ok,
        still_unused(db, s, false),
    ensures
        columns_apart(s.schema.columns) ==> keyed(sweep_pages(db, s, ids, n), s.table),
        others_kept(db.indexes, sweep_pages(db, s, ids, n).indexes, s.table),
        survey_pages(db.pages, s, ids, n) is Ok,
        survey_pages(db.pages, s, ids, n)->Ok_0 || sweep_pages(db, s, ids, n) == db,
    decreases n,
{
    if n > 0 {
        let m = (n - 1) as nat;
        lemma_good_list(db, s.table);
        lemma_keyed_pages(db, s, ids, m);
        lemma_pages(db, s, ids, m);
        let v = sweep_pages(db, s, ids, m);
        let id = ids[m as int];
        assert(page_good(v, id));
        lemma_survey_pages(db.pages, s, ids, m, ids.len());
        let g = survey_pages(db.pages, s, ids, m)->Ok_0;
        assert(v.pages[id] == db.pages[id]) by {
            let earlier = ids.take(m as int);
            if earlier.contains(id) {
                let j = choose|j: int| 0 <= j < earlier.len() && earlier[j] == id;
                assert(ids[j] == ids[m as int]);
            }
        }
        let d = v.pages[id]->Ok_0;
        let w = Work { page: d, wal: v.wal, indexes: v.indexes };
        let x = work_db(v, id, w);
        assert(x.pages =~= v.pages);
        assert(x == v);
        assert(ids.contains(id));
        lemma_keyed_slots(v, s, id, w, g, page_count(d) as nat);
        let w2 = sweep_slots(w, s, id, page_count(d) as nat);
        assert(sweep_pages(db, s, ids, n) == work_db(v, id, w2));
        lemma_kept_chain(db.indexes, v.indexes, w2.indexes, s.table);
    }
}

// Statements.

/// Statements that leave a table's pages and indexes alone keep its keys.
proof fn lemma_keys_alike(db: DbView, after: DbView, table: Seq<char>)
    requires
        keys_ok(db),
        after.catalog == db.catalog,
        forall|other: Seq<char>|
            other != table && db.catalog.get(other) is Some ==> {
                &&& #[trigger] table_pages(after.tables, other) == table_pages(db.tables, other)
                &&& forall|id: u32|
                    (table_pages(db.tables, other)->0).contains(id) ==> #[trigger] after.pages[id]
                        == db.pages[id]
            },
        others_kept(db.indexes, after.indexes, table),
        db.catalog.get(table) is Some && columns_apart((db.catalog.get(table)->0).columns)
            ==> keyed(after, table),
    ensures
        keys_ok(after),
{
    assert forall|other: Seq<char>|
        after.catalog.get(other) is Some && columns_apart(
            (after.catalog.get(other)->0).columns,
        ) implies #[trigger] keyed(after, other) by {
        if other != table {
            assert(keyed(db, other));
            assert(table_pages(after.tables, other) == table_pages(db.tables, other));
            lemma_keyed_alike(db, after, other);
        }
    }
    assert forall|i: int| 0 <= i < after.indexes.len() implies after.catalog.get(
        (#[trigger] after.indexes[i]).table,
    ) is Some by {
        assert(db.catalog.get(db.indexes[i].table) is Some);
    }
}

/// Statements that change only the log keep the keys.
proof fn lemma_same_keys(db: DbView, after: DbView)
    requires
        keys_ok(db),
        after.catalog == db.catalog,
        after.tables == db.tables,
        after.pages == db.pages,
        after.indexes == db.indexes,
    ensures
        keys_ok(after),
{
    assert forall|table: Seq<char>|
        after.catalog.get(table) is Some && columns_apart(
            (after.catalog.get(table)->0).columns,
        ) implies #[trigger] keyed(after, table) by {
        assert(keyed(db, table));
        lemma_keyed_alike(db, after, table);
    }
}

/// The check for duplicates at the start of an UPDATE finds the primary keys that no row has.
proof fn lemma_start_unused(db: DbView, begun: DbView, s: Sweep)
    requires
        heap_ok(db),
        keys_ok(db),
        db.catalog.get(s.table) == Some(s.schema),
        s.dups == key_dups(db, s.schema, s.table, s.set),
        begun == (DbView { wal: begun.wal, ..db }),
    ensures
        still_unused(begun, s, false),
{
    if s.set is Some && s.schema.primary_key is Some && columns_apart(s.schema.columns) {
        let set = s.set->0;
        let i = s.schema.pk_col()->0;
        lemma_listed(db, s.table);
        lemma_good_list(db, s.table);
        let ids = table_pages(db.tables, s.table)->0;
        assert forall|k: int| 0 <= k < ids.len() implies db.pages[#[trigger] ids[k]] is Ok by {
            assert(page_good(db, ids[k]));
        }
        assert(keyed(db, s.table));
        let f = values_at(db, s.table);
        let g = values_at(begun, s.table);
        assert forall|r: Rid| #[trigger] g(r) == f(r) by {}
        assert forall|k: int, r: Rid|
            0 <= k < set.len() && (#[trigger] set[k]).column == s.schema.primary_key->0
                && !s.dups[k] && fits(s.schema.columns[i].ty, set[k].value) && (#[trigger] g(
                r,
            )) is Some implies !same_value(g(r)->0, set[k].value) by {
            lemma_unused(db, s.table, set[k].value);
            assert(g(r) == f(r));
        }
    }
}

proof fn lemma_sweep_keys(
    db: DbView,
    table: Seq<char>,
    filter: Option<ExprView>,
    set: Option<Seq<AssignmentView>>,
)
    requires
        heap_ok(db),
        keys_ok(db),
    ensures
        keys_ok(sweep(db, table, filter, set).0),
{
    if sweep(db, table, filter, set).1 is Err {
        law_failed_sweep_changes_nothing(db, table, filter, set);
        lemma_same_keys(db, sweep(db, table, filter, set).0);
    } else {
        let after = sweep(db, table, filter, set).0;
        lemma_listed(db, table);
        lemma_good_list(db, table);
        let ids = table_pages(db.tables, table)->0;
        let s = sweep_of(db, table, filter, set);
        let begun = DbView { wal: wal_begin(db.wal), ..db };
        lemma_same_heap(db, begun);
        lemma_start_unused(db, begun, s);
        if columns_apart(s.schema.columns) {
            assert(keyed(db, table));
            lemma_keyed_alike(db, begun, table);
        }
        assert forall|k: int| 0 <= k < ids.len() implies page_good(begun, #[trigger] ids[k]) by {
            assert(page_good(db, ids[k]));
        }
        lemma_pages(begun, s, ids, ids.len());
        lemma_keyed_pages(begun, s, ids, ids.len());
        let v = sweep_pages(begun, s, ids, ids.len());
        if columns_apart(s.schema.columns) {
            lemma_keyed_alike(v, after, table);
        }
        assert(ids.take(ids.len() as int) =~= ids);
        assert forall|other: Seq<char>|
            other != table && db.catalog.get(other) is Some implies {
            &&& #[trigger] table_pages(after.tables, other) == table_pages(db.tables, other)
            &&& forall|id: u32|
                (table_pages(db.tables, other)->0).contains(id) ==> #[trigger] after.pages[id]
                    == db.pages[id]
        } by {
            lemma_listed(db, other);
            lemma_lists_apart(db, table, other);
            let theirs = table_pages(db.tables, other)->0;
            assert forall|id: u32| theirs.contains(id) implies #[trigger] after.pages[id]
                == db.pages[id] by {
                let l = choose|l: int| 0 <= l < theirs.len() && theirs[l] == id;
                assert(!ids.contains(id)) by {
                    if ids.contains(id) {
                        let k = choose|k: int| 0 <= k < ids.len() && ids[k] == id;
                        assert(ids[k] != theirs[l]);
                    }
                }
                assert(v.pages[id] == begun.pages[id]);
            }
        }
        lemma_keys_alike(db, after, table);
    }
}

/// The rows of the table into which a row was inserted.
proof fn lemma_inserted_at(db: DbView, table: Seq<char>, row: RowView, r: Rid)
    requires
        heap_ok(db),
        db.num_pages < u32::MAX,
        insert(db, table, row).1 is Ok,
    ensures
        ({
            let t = serialized((db.catalog.get(table)->0).columns, row)->Ok_0;
            let rid = insert_rid(db, table, t.len());
            let after = insert(db, table, row).0;
            &&& tuple_at(db, table, rid) is None
            &&& tuple_at(after, table, rid) == Some(t)
            &&& r != rid ==> tuple_at(after, table, r) == tuple_at(db, table, r)
        }),
{
    let t = serialized((db.catalog.get(table)->0).columns, row)->Ok_0;
    let rid = insert_rid(db, table, t.len());
    let after = insert(db, table, row).0;
    let k = lemma_insert_outcome(db, table, row);
    let ids = table_pages(db.tables, table)->0;
    lemma_good_list(db, table);
    if 0 <= k {
        assert(page_good(db, ids[k]));
        let d = db.pages[ids[k]]->Ok_0;
        lemma_put(d, t);
        assert(ids.contains(rid.page_id));
        if r.page_id == rid.page_id && r != rid {
            assert(r.slot_id != page_count(d));
        }
    } else {
        let id = db.num_pages;
        let d = page_body(page_blank(id));
        lemma_blank(id);
        lemma_put(d, t);
        let now = ids.push(id);
        lemma_tables_put(db.tables, table, now, table);
        assert(now[ids.len() as int] == id);
        assert(!ids.contains(id)) by {
            if ids.contains(id) {
                let l = choose|l: int| 0 <= l < ids.len() && ids[l] == id;
                assert(page_good(db, ids[l]));
            }
        }
        assert(now.contains(r.page_id) == (ids.contains(r.page_id) || r.page_id == id)) by {
            if ids.contains(r.page_id) {
                let l = choose|l: int| 0 <= l < ids.len() && ids[l] == r.page_id;
                assert(now[l] == r.page_id);
            }
        }
        if r.page_id == id && r != rid {
            assert(r.slot_id != 0);
            assert(page_get(d, r.slot_id as int) is None);
        }
    }
}

proof fn lemma_insert_keyed(db: DbView, table: Seq<char>, row: RowView)
    requires
        heap_ok(db),
        keyed(db, table),
        columns_apart((db.catalog.get(table)->0).columns),
        db.num_pages < u32::MAX,
        insert(db, table, row).1 is Ok,
    ensures
        keyed(insert(db, table, row).0, table),
{
    let schema = db.catalog.get(table)->0;
    let cols = schema.columns;
    let t = serialized(cols, row)->Ok_0;
    let rid = insert_rid(db, table, t.len());
    let after = insert(db, table, row).0;
    let k = lemma_insert_outcome(db, table, row);
    if let Some(key) = schema.primary_key {
        lemma_listed(db, table);
        lemma_key_column(table, cols);
        let i = schema.pk_col()->0;
        let f = keys_at(db, table);
        let g = keys_at(after, table);
        let e = index_get(db.indexes, table, key)->0;
        lemma_written_row(cols, row, t, Seq::empty());
        assert(t + Seq::<u8>::empty() =~= t);
        lemma_insert_index(db, table, row);
        lemma_row_added(db.indexes, table, cols, row, rid, cols.len(), i);
        assert(index_get(after.indexes, table, key) == Some(key_given(e, row[i], rid)));
        lemma_inserted_at(db, table, row, rid);
        assert forall|r: Rid| r != rid implies #[trigger] g(r) == f(r) by {
            lemma_inserted_at(db, table, row, r);
        }
        let vf = values_at(db, table);
        let vg = values_at(after, table);
        assert forall|r: Rid| r != rid implies #[trigger] vg(r) == vf(r) by {
            lemma_inserted_at(db, table, row, r);
        }
        let ids = table_pages(db.tables, table)->0;
        lemma_good_list(db, table);
        assert forall|k: int| 0 <= k < ids.len() implies db.pages[#[trigger] ids[k]] is Ok by {
            assert(page_good(db, ids[k]));
        }
        law_row_fits(cols, t);
        lemma_unused(db, table, row[i]);
        lemma_apart_step(vf, vg, rid);
        if let ValueView::Int(k1) = row[i] {
            if let Some(r) = rid_of(e, k1) {
                assert(f(r) == Some(k1));
                lemma_key_value(db, table, r);
                assert(vf(r) is Some);
            }
        }
        lemma_link(e, f, g, rid, row[i]);
    }
}

/// What an INSERT that succeeds does to the indexes.
pub proof fn lemma_insert_index(db: DbView, table: Seq<char>, row: RowView)
    requires
        heap_ok(db),
        db.num_pages < u32::MAX,
        insert(db, table, row).1 is Ok,
    ensures
        ({
            let cols = (db.catalog.get(table)->0).columns;
            let t = serialized(cols, row)->Ok_0;
            insert(db, table, row).0.indexes == index_add_row(
                db.indexes,
                table,
                cols,
                row,
                insert_rid(db, table, t.len()),
                cols.len(),
            )
        }),
        row.len() == (db.catalog.get(table)->0).columns.len(),
{
    let k = lemma_insert_outcome(db, table, row);
    let t = serialized((db.catalog.get(table)->0).columns, row)->Ok_0;
    let ids = table_pages(db.tables, table)->0;
    lemma_good_list(db, table);
    if 0 <= k {
        assert(page_good(db, ids[k]));
    } else {
        lemma_blank(db.num_pages);
    }
}

proof fn lemma_insert_keys(db: DbView, table: Seq<char>, row: RowView)
    requires
        heap_ok(db),
        keys_ok(db),
        db.num_pages < u32::MAX,
    ensures
        keys_ok(insert(db, table, row).0),
{
    let after = insert(db, table, row).0;
    if insert(db, table, row).1 is Ok {
        let k = lemma_insert_outcome(db, table, row);
        let cols = (db.catalog.get(table)->0).columns;
        let t = serialized(cols, row)->Ok_0;
        if columns_apart(cols) {
            assert(keyed(db, table));
            lemma_insert_keyed(db, table, row);
        }
        lemma_insert_index(db, table, row);
        lemma_kept_add_row(
            db.indexes,
            table,
            cols,
            row,
            insert_rid(db, table, t.len()),
            cols.len(),
        );
        let ids = table_pages(db.tables, table)->0;
        assert forall|other: Seq<char>| other != table && db.catalog.get(other) is Some implies {
            &&& #[trigger] table_pages(after.tables, other) == table_pages(db.tables, other)
            &&& forall|id: u32|
                (table_pages(db.tables, other)->0).contains(id) ==> #[trigger] after.pages[id]
                    == db.pages[id]
        } by {
            lemma_listed(db, other);
            lemma_lists_apart(db, table, other);
            lemma_good_list(db, other);
            lemma_tables_put(db.tables, table, ids.push(db.num_pages), other);
            let theirs = table_pages(db.tables, other)->0;
            assert forall|id: u32| theirs.contains(id) implies #[trigger] after.pages[id]
                == db.pages[id] by {
                let l = choose|l: int| 0 <= l < theirs.len() && theirs[l] == id;
                assert(page_good(db, theirs[l]));
                if 0 <= k {
                    assert(ids[k] != theirs[l]);
                }
            }
        }
        lemma_keys_alike(db, after, table);
    } else {
        assert(after.indexes == db.indexes);
        assert(after.tables == db.tables);
        let id = db.num_pages;
        assert(after.pages == db.pages || after.pages == db.pages.insert(
            id,
            Ok(page_body(page_blank(id))),
        ));
        assert forall|other: Seq<char>| db.catalog.get(other) is Some implies {
            forall|x: u32|
                (table_pages(db.tables, other)->0).contains(x) ==> #[trigger] after.pages[x]
                    == db.pages[x]
        } by {
            lemma_listed(db, other);
            lemma_good_list(db, other);
            let theirs = table_pages(db.tables, other)->0;
            assert forall|x: u32| theirs.contains(x) implies #[trigger] after.pages[x]
                == db.pages[x] by {
                let l = choose|l: int| 0 <= l < theirs.len() && theirs[l] == x;
                assert(page_good(db, theirs[l]));
            }
        }
        if db.catalog.get(table) is Some && columns_apart((db.catalog.get(table)->0).columns) {
            assert(keyed(db, table));
            lemma_keyed_alike(db, after, table);
        }
        lemma_keys_alike(db, after, table);
    }
}

/// The indexes after a table was created.
proof fn lemma_create_index(
    db: DbView,
    table: Seq<char>,
    columns: Seq<ColumnView>,
    t2: Seq<char>,
    c2: Seq<char>,
)
    ensures
        index_get(create_table(db, table, columns).0.indexes, t2, c2) == (match index_get(
            db.indexes,
            t2,
            c2,
        ) {
            Some(e) => Some(e),
            None => if t2 == table && new_schema(table, columns).primary_key == Some(c2) {
                Some(Seq::empty())
            } else {
                None
            },
        }),
{
    if let Some(key) = new_schema(table, columns).primary_key {
        lemma_get_created(db.indexes, table, key, t2, c2);
    }
}

/// The tables after a table was created.
pub proof fn lemma_create_get(db: DbView, table: Seq<char>, columns: Seq<ColumnView>, other: Seq<char>)
    requires
        db.catalog.get(table) is None,
    ensures
        create_table(db, table, columns).0.catalog.get(other) == (if other == table {
            Some(new_schema(table, columns))
        } else {
            db.catalog.get(other)
        }),
{
    let names = table_names(db.catalog.tables);
    let now = table_names(create_table(db, table, columns).0.catalog.tables);
    assert(now =~= names.push(table));
    lemma_position_push(names, table, other, 0);
    lemma_position(names, other, 0);
}

/// A new table has no rows.
proof fn lemma_create_keyed(db: DbView, table: Seq<char>, columns: Seq<ColumnView>)
    requires
        keys_ok(db),
        db.catalog.get(table) is None,
    ensures
        keyed(create_table(db, table, columns).0, table),
{
    let after = create_table(db, table, columns).0;
    lemma_create_get(db, table, columns, table);
    lemma_tables_put(db.tables, table, Seq::empty(), table);
    if let Some(key) = new_schema(table, columns).primary_key {
        assert(index_get(db.indexes, table, key) is None) by {
            lemma_index_at(db.indexes, table, key, 0);
        }
        lemma_create_index(db, table, columns, table, key);
        let e = index_get(after.indexes, table, key)->0;
        let g = keys_at(after, table);
        let vg = values_at(after, table);
        assert forall|r: Rid| tuple_at(after, table, r) is None by {}
        assert forall|k: i64, r: Rid| (#[trigger] rid_of(e, k)) == Some(r) <==> #[trigger] g(r)
            == Some(k) by {}
        assert forall|r: Rid| (#[trigger] vg(r)) is None by {}
    }
}

/// The other tables keep their rows.
proof fn lemma_create_others(
    db: DbView,
    table: Seq<char>,
    columns: Seq<ColumnView>,
    other: Seq<char>,
)
    requires
        db.catalog.get(table) is None,
        other != table,
        keyed(db, other),
        db.catalog.get(other) is Some,
    ensures
        keyed(create_table(db, table, columns).0, other),
{
    let after = create_table(db, table, columns).0;
    lemma_create_get(db, table, columns, other);
    lemma_tables_put(db.tables, table, Seq::empty(), other);
    assert forall|c: Seq<char>| #[trigger] index_get(after.indexes, other, c) == index_get(
        db.indexes,
        other,
        c,
    ) by {
        lemma_create_index(db, table, columns, other, c);
    }
    lemma_keyed_alike(db, after, other);
}

/// A table that is refused leaves the rows and the indexes that were there.
proof fn lemma_refused_keys(db: DbView, table: Seq<char>, columns: Seq<ColumnView>)
    requires
        keys_ok(db),
        db.catalog.get(table) is Some,
    ensures
        keys_ok(create_table(db, table, columns).0),
{
    let after = create_table(db, table, columns).0;
    assert forall|other: Seq<char>|
        after.catalog.get(other) is Some && columns_apart(
            (after.catalog.get(other)->0).columns,
        ) implies #[trigger] keyed(after, other) by {
        assert(keyed(db, other));
        assert forall|c: Seq<char>|
            index_get(db.indexes, other, c) is Some implies #[trigger] index_get(
            after.indexes,
            other,
            c,
        ) == index_get(db.indexes, other, c) by {
            lemma_create_index(db, table, columns, other, c);
        }
        lemma_keyed_alike(db, after, other);
    }
    assert forall|i: int| 0 <= i < after.indexes.len() implies after.catalog.get(
        (#[trigger] after.indexes[i]).table,
    ) is Some by {
        if i < db.indexes.len() {
            assert(after.indexes[i] == db.indexes[i]);
            assert(db.catalog.get(db.indexes[i].table) is Some);
        }
    }
}

proof fn lemma_create_keys(db: DbView, table: Seq<char>, columns: Seq<ColumnView>)
    requires
        keys_ok(db),
    ensures
        keys_ok(create_table(db, table, columns).0),
{
    if db.catalog.get(table) is Some {
        lemma_refused_keys(db, table, columns);
    } else {
        let after = create_table(db, table, columns).0;
        assert forall|other: Seq<char>|
            after.catalog.get(other) is Some && columns_apart(
                (after.catalog.get(other)->0).columns,
            ) implies #[trigger] keyed(after, other) by {
            if other == table {
                lemma_create_keyed(db, table, columns);
            } else {
                lemma_create_get(db, table, columns, other);
                assert(keyed(db, other));
                lemma_create_others(db, table, columns, other);
            }
        }
        assert forall|i: int| 0 <= i < after.indexes.len() implies after.catalog.get(
            (#[trigger] after.indexes[i]).table,
        ) is Some by {
            lemma_create_get(db, table, columns, after.indexes[i].table);
            if i < db.indexes.len() {
                assert(after.indexes[i] == db.indexes[i]);
                assert(db.catalog.get(db.indexes[i].table) is Some);
            }
        }
    }
}

/// Every statement, whether it succeeds or not, keeps the indexes on primary keys leading to exactly
/// the rows of their tables.
pub proof fn law_keys_are_kept(db: DbView, stmt: StatementView)
    requires
        heap_ok(db),
        keys_ok(db),
        db.num_pages < u32::MAX,
    ensures
        keys_ok(execute(db, stmt).0),
{
    match stmt {
        StatementView::CreateTable { table, columns } => lemma_create_keys(db, table, columns),
        StatementView::Insert { table, values } => lemma_insert_keys(db, table, values),
        StatementView::Select { .. } => {},
        StatementView::Delete { table, filter } => lemma_sweep_keys(db, table, filter, None),
        StatementView::Update { table, assignments, filter } => lemma_sweep_keys(
            db,
            table,
            filter,
            Some(assignments),
        ),
    }
}

// What primary keys promise.

proof fn lemma_page_cell(id: u32, d: Seq<u8>, n: nat, i: int)
    requires
        0 <= i < page_cells(id, d, n).len(),
        n <= u16::MAX,
    ensures
        ({
            let c = page_cells(id, d, n)[i];
            &&& c.rid.page_id == id
            &&& c.rid.slot_id < n
            &&& page_get(d, c.rid.slot_id as int) == Some(c.tuple)
            &&& forall|j: int|
                0 <= j < i ==> (#[trigger] page_cells(id, d, n)[j]).rid.slot_id < c.rid.slot_id
        }),
    decreases n,
{
    if n > 0 {
        let before = page_cells(id, d, (n - 1) as nat);
        let now = page_cells(id, d, n);
        if i < before.len() {
            lemma_page_cell(id, d, (n - 1) as nat, i);
            assert(now[i] == before[i]);
            assert forall|j: int| 0 <= j < i implies (#[trigger] now[j]).rid.slot_id
                < now[i].rid.slot_id by {
                assert(now[j] == before[j]);
            }
        } else {
            assert forall|j: int| 0 <= j < i implies (#[trigger] now[j]).rid.slot_id
                < now[i].rid.slot_id by {
                lemma_page_cell(id, d, (n - 1) as nat, j);
                assert(now[j] == before[j]);
            }
        }
    }
}

proof fn lemma_cell(
    pages: Map<u32, Result<Seq<u8>, StorageError>>,
    ids: Seq<u32>,
    n: nat,
    i: int,
) -> (k: int)
    requires
        n <= ids.len(),
        0 <= i < cells_upto(pages, ids, n).len(),
    ensures
        0 <= k < n,
        ({
            let c = cells_upto(pages, ids, n)[i];
            &&& c.rid.page_id == ids[k]
            &&& page_get(pages[ids[k]]->Ok_0, c.rid.slot_id as int) == Some(c.tuple)
        }),
    decreases n,
{
    let before = cells_upto(pages, ids, (n - 1) as nat);
    if i < before.len() {
        lemma_cell(pages, ids, (n - 1) as nat, i)
    } else {
        let d = pages[ids[n - 1]]->Ok_0;
        lemma_page_cell(ids[n - 1], d, page_count(d) as nat, i - before.len());
        n - 1
    }
}

proof fn lemma_cells_apart(
    pages: Map<u32, Result<Seq<u8>, StorageError>>,
    ids: Seq<u32>,
    n: nat,
    i: int,
    j: int,
)
    requires
        n <= ids.len(),
        ids.no_duplicates(),
        0 <= i < j < cells_upto(pages, ids, n).len(),
    ensures
        cells_upto(pages, ids, n)[i].rid != cells_upto(pages, ids, n)[j].rid,
    decreases n,
{
    let before = cells_upto(pages, ids, (n - 1) as nat);
    let d = pages[ids[n - 1]]->Ok_0;
    if j < before.len() {
        lemma_cells_apart(pages, ids, (n - 1) as nat, i, j);
    } else if i < before.len() {
        let k = lemma_cell(pages, ids, (n - 1) as nat, i);
        lemma_page_cell(ids[n - 1], d, page_count(d) as nat, j - before.len());
        assert(ids[k] != ids[n - 1]);
    } else {
        lemma_page_cell(ids[n - 1], d, page_count(d) as nat, j - before.len());
        let here = page_cells(ids[n - 1], d, page_count(d) as nat);
        assert(here[i - before.len()].rid.slot_id < here[j - before.len()].rid.slot_id);
    }
}

/// The rows that a table holds stand at different places, and each is read from its place.
pub proof fn lemma_table_cells(db: DbView, table: Seq<char>)
    requires
        heap_ok(db),
        table_pages(db.tables, table) is Some,
    ensures
        forall|i: int|
            0 <= i < table_cells(db, table).len() ==> tuple_at(
                db,
                table,
                (#[trigger] table_cells(db, table)[i]).rid,
            ) == Some(table_cells(db, table)[i].tuple),
        forall|i: int, j: int|
            0 <= i < j < table_cells(db, table).len() ==> (#[trigger] table_cells(
                db,
                table,
            )[i]).rid != (#[trigger] table_cells(db, table)[j]).rid,
{
    lemma_good_list(db, table);
    let ids = table_pages(db.tables, table)->0;
    assert forall|i: int| 0 <= i < table_cells(db, table).len() implies tuple_at(
        db,
        table,
        (#[trigger] table_cells(db, table)[i]).rid,
    ) == Some(table_cells(db, table)[i].tuple) by {
        let k = lemma_cell(db.pages, ids, ids.len(), i);
        assert(ids.contains(ids[k]));
    }
    assert forall|i: int, j: int| 0 <= i < j < table_cells(db, table).len() implies (
    #[trigger] table_cells(db, table)[i]).rid != (#[trigger] table_cells(db, table)[j]).rid by {
        lemma_cells_apart(db.pages, ids, ids.len(), i, j);
    }
}

/// No two rows of a table have equal primary keys, whatever their type.
pub proof fn law_primary_key_is_unique(db: DbView, table: Seq<char>, i: int, j: int)
    requires
        heap_ok(db),
        keys_ok(db),
        db.catalog.get(table) is Some,
        columns_apart((db.catalog.get(table)->0).columns),
        (db.catalog.get(table)->0).primary_key is Some,
        all_rows(db, table) is Ok,
        0 <= i < j < all_rows(db, table)->Ok_0.len(),
    ensures
        ({
            let rows = all_rows(db, table)->Ok_0;
            let c = (db.catalog.get(table)->0).pk_col()->0;
            !same_value(rows[i][c], rows[j][c])
        }),
{
    let schema = db.catalog.get(table)->0;
    let rows = all_rows(db, table)->Ok_0;
    let cells = table_cells(db, table);
    lemma_listed(db, table);
    law_select_reads_table(db, table, SelectView::Star);
    lemma_star_rows(schema, cells, rows);
    lemma_table_cells(db, table);
    assert(keyed(db, table));
    let f = values_at(db, table);
    let c = schema.pk_col()->0;
    assert(deserialized(schema.columns, cells[i].tuple) == Ok::<RowView, Seq<char>>(rows[i]));
    assert(deserialized(schema.columns, cells[j].tuple) == Ok::<RowView, Seq<char>>(rows[j]));
    assert(f(cells[i].rid) == Some(rows[i][c]));
    assert(f(cells[j].rid) == Some(rows[j][c]));
}

/// An INSERT with a primary key that is equal to that of a row of the table is refused, and changes
/// nothing. If it has the type of its column, the message names it.
pub proof fn law_duplicate_key_is_refused(db: DbView, table: Seq<char>, row: RowView, i: int)
    requires
        heap_ok(db),
        keys_ok(db),
        db.catalog.get(table) is Some,
        columns_apart((db.catalog.get(table)->0).columns),
        (db.catalog.get(table)->0).primary_key is Some,
        row.len() == (db.catalog.get(table)->0).columns.len(),
        all_rows(db, table) is Ok,
        0 <= i < all_rows(db, table)->Ok_0.len(),
        ({
            let c = (db.catalog.get(table)->0).pk_col()->0;
            same_value(all_rows(db, table)->Ok_0[i][c], row[c])
        }),
    ensures
        insert(db, table, row).0 == db,
        insert(db, table, row).1 is Err,
        ({
            let schema = db.catalog.get(table)->0;
            let c = schema.pk_col()->0;
            fits(schema.columns[c].ty, row[c]) ==> insert(db, table, row).1 == Err::<
                Seq<RowView>,
                Seq<char>,
            >(msg_duplicate_key(schema.primary_key->0, row[c]))
        }),
{
    let schema = db.catalog.get(table)->0;
    let rows = all_rows(db, table)->Ok_0;
    let cells = table_cells(db, table);
    lemma_listed(db, table);
    lemma_key_column(table, schema.columns);
    law_select_reads_table(db, table, SelectView::Star);
    lemma_star_rows(schema, cells, rows);
    lemma_table_cells(db, table);
    lemma_good_list(db, table);
    assert(keyed(db, table));
    let c = schema.pk_col()->0;
    let ids = table_pages(db.tables, table)->0;
    let rid = cells[i].rid;
    assert(deserialized(schema.columns, cells[i].tuple) == Ok::<RowView, Seq<char>>(rows[i]));
    assert(tuple_at(db, table, rid) == Some(cells[i].tuple));
    law_row_fits(schema.columns, cells[i].tuple);
    if let ValueView::Int(k) = row[c] {
        if let ValueView::Int(_) = rows[i][c] {
            let f = keys_at(db, table);
            let e = index_get(db.indexes, table, schema.primary_key->0)->0;
            assert(f(rid) == Some(k));
            assert(rid_of(e, k) == Some(rid));
        } else {
            assert(serialized(schema.columns, row) is Err) by {
                if serialized(schema.columns, row) is Ok {
                    lemma_serialized_parts(schema.columns, row, row.len());
                    assert(fits(schema.columns[c].ty, row[c]));
                }
            }
        }
    } else {
        let k = choose|k: int| 0 <= k < ids.len() && ids[k] == rid.page_id;
        assert(page_good(db, ids[k]));
        assert(slot_has_key(db.pages, schema, ids[k], rid.slot_id as int, row[c]));
    }
}

} // verus!
