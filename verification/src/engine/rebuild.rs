//! The indexes after a restart: recovery fills them as they were.
use crate::engine::catalog::{
    column_names, deserialized, law_row_fits, lemma_key_column, lemma_position, new_schema,
    position, table_names, CatalogView, SchemaView,
};
use crate::engine::changes::{law_failed_sweep_changes_nothing, lemma_pages, lemma_same_heap};
use crate::engine::contents::{heap_ok, lemma_good_list, lemma_list, lemma_listed, page_good};
use crate::engine::durability::{
    durable, law_committed_rows_survive_restart, lemma_lists_back, lemma_page_back, on_file,
    restarted,
};
use crate::engine::index_manager::{index_get, index_has, index_insert, IndexView};
use crate::engine::keys::{
    columns_apart, key_given, key_in, keyed, keys_at, keys_ok, lemma_get_created,
    lemma_get_inserted, lemma_kept_chain, lemma_kept_insert, lemma_link, lemma_linked_same,
    lemma_values_alike, linked, others_kept, tuple_at,
};
use crate::engine::model::{
    create_table, entry_names, execute, found_rows, index_create_all, index_load_pages,
    index_load_row, index_load_slots, index_load_tables, index_rids, rid_rows, scan_pages, select,
    sweep, sweep_of, table_pages, DbView, RowView, TableView,
};
use crate::engine::tables::lemma_position_push;
use crate::index::btree::{below, law_search, rid_of, sorted, unique, Entry};
use crate::index::node::Rid;
use crate::recovery::wal::wal_begin;
use crate::sql::ast::{
    AssignmentView, ColumnView, ExprView, OrderDir, SelectView, StatementView, ValueView,
};
use crate::storage::error::StorageError;
use crate::storage::page::{page_count, page_get};
use vstd::prelude::*;

verus! {

/// The catalog defines an index on the primary key of each table, and no other.
pub open spec fn defs_ok(c: CatalogView) -> bool {
    &&& forall|i: int|
        0 <= i < c.tables.len() ==> ((#[trigger] c.tables[i]).primary_key matches Some(key)
            ==> c.index_defs.contains((c.tables[i].name, key)))
    &&& forall|j: int|
        0 <= j < c.index_defs.len() ==> {
            let d = #[trigger] c.index_defs[j];
            &&& c.get(d.0) is Some
            &&& (c.get(d.0)->0).primary_key == Some(d.1)
        }
}

// Creating the indexes.

proof fn lemma_created(defs: Seq<(Seq<char>, Seq<char>)>, n: nat, t: Seq<char>, c: Seq<char>)
    requires
        n <= defs.len(),
    ensures
        index_get(index_create_all(defs, n), t, c) == (if defs.take(n as int).contains((t, c)) {
            Some(Seq::<Entry>::empty())
        } else {
            None
        }),
    decreases n,
{
    if n > 0 {
        lemma_created(defs, (n - 1) as nat, t, c);
        let before = index_create_all(defs, (n - 1) as nat);
        let d = defs[n - 1];
        lemma_get_created(before, d.0, d.1, t, c);
        let a = defs.take(n - 1);
        let b = defs.take(n as int);
        assert(b =~= a.push(d));
        assert(b.contains((t, c)) <==> a.contains((t, c)) || d == (t, c)) by {
            if a.contains((t, c)) {
                let i = choose|i: int| 0 <= i < a.len() && a[i] == (t, c);
                assert(b[i] == (t, c));
            }
            assert(b[n - 1] == d);
        }
    } else {
        assert(index_create_all(defs, 0) =~= Seq::<IndexView>::empty());
    }
}

proof fn lemma_created_tables(defs: Seq<(Seq<char>, Seq<char>)>, n: nat)
    requires
        n <= defs.len(),
    ensures
        forall|i: int|
            0 <= i < index_create_all(defs, n).len() ==> exists|j: int|
                0 <= j < n && (#[trigger] defs[j]).0 == (#[trigger] index_create_all(defs, n)[i]).table,
    decreases n,
{
    if n > 0 {
        lemma_created_tables(defs, (n - 1) as nat);
        let before = index_create_all(defs, (n - 1) as nat);
        let now = index_create_all(defs, n);
        assert forall|i: int| 0 <= i < now.len() implies exists|j: int|
            0 <= j < n && (#[trigger] defs[j]).0 == (#[trigger] now[i]).table by {
            if i < before.len() {
                assert(now[i] == before[i]);
                let j = choose|j: int|
                    0 <= j < n - 1 && (#[trigger] defs[j]).0 == before[i].table;
                assert(defs[j].0 == now[i].table);
            } else {
                assert(defs[n - 1].0 == now[i].table);
            }
        }
    }
}

// Filling an index.

/// What loading a row does to the index on column `i`, and to those of other tables.
proof fn lemma_row_loaded(
    v: Seq<IndexView>,
    table: Seq<char>,
    schema: SchemaView,
    row: RowView,
    rid: Rid,
    n: nat,
    i: int,
)
    requires
        n <= schema.columns.len(),
        0 <= i < schema.columns.len(),
        columns_apart(schema.columns),
    ensures
        index_get(
            index_load_row(v, table, schema, row, rid, n),
            table,
            schema.columns[i].name,
        ) == (match index_get(v, table, schema.columns[i].name) {
            Some(e) => Some(
                if i < n {
                    key_given(e, row[i], rid)
                } else {
                    e
                },
            ),
            None => None,
        }),
    decreases n,
{
    if n > 0 {
        lemma_row_loaded(v, table, schema, row, rid, (n - 1) as nat, i);
        let name = schema.columns[n - 1].name;
        let names = column_names(schema.columns);
        lemma_position(names, name, 0);
        assert(names[n - 1] == name);
        let p = schema.col(name)->0;
        assert(schema.columns[p].name == names[p]);
        assert(p == n - 1);
        assert(i != n - 1 ==> schema.columns[i].name != name);
        if let ValueView::Int(k) = row[n - 1] {
            lemma_get_inserted(
                index_load_row(v, table, schema, row, rid, (n - 1) as nat),
                table,
                name,
                k,
                rid,
                table,
                schema.columns[i].name,
            );
        }
    }
}

proof fn lemma_kept_load_row(
    v: Seq<IndexView>,
    table: Seq<char>,
    schema: SchemaView,
    row: RowView,
    rid: Rid,
    n: nat,
)
    ensures
        others_kept(v, index_load_row(v, table, schema, row, rid, n), table),
    decreases n,
{
    if n > 0 {
        lemma_kept_load_row(v, table, schema, row, rid, (n - 1) as nat);
        let name = schema.columns[n - 1].name;
        if let ValueView::Int(k) = row[schema.col(name)->0] {
            lemma_kept_insert(
                v,
                index_load_row(v, table, schema, row, rid, (n - 1) as nat),
                table,
                name,
                k,
                rid,
            );
        }
    }
}

proof fn lemma_kept_load_slots(
    v: Seq<IndexView>,
    table: Seq<char>,
    schema: SchemaView,
    d: Seq<u8>,
    id: u32,
    n: nat,
)
    ensures
        others_kept(v, index_load_slots(v, table, schema, d, id, n), table),
    decreases n,
{
    if n > 0 {
        lemma_kept_load_slots(v, table, schema, d, id, (n - 1) as nat);
        let before = index_load_slots(v, table, schema, d, id, (n - 1) as nat);
        if let Some(t) = page_get(d, n - 1) {
            if let Ok(row) = deserialized(schema.columns, t) {
                let rid = Rid { page_id: id, slot_id: (n - 1) as u16 };
                lemma_kept_load_row(before, table, schema, row, rid, schema.columns.len());
                lemma_kept_chain(
                    v,
                    before,
                    index_load_row(before, table, schema, row, rid, schema.columns.len()),
                    table,
                );
            }
        }
    }
}

proof fn lemma_kept_load_pages(
    v: Seq<IndexView>,
    pages: Map<u32, Result<Seq<u8>, StorageError>>,
    table: Seq<char>,
    schema: SchemaView,
    ids: Seq<u32>,
    n: nat,
)
    ensures
        others_kept(v, index_load_pages(v, pages, table, schema, ids, n), table),
    decreases n,
{
    if n > 0 {
        lemma_kept_load_pages(v, pages, table, schema, ids, (n - 1) as nat);
        let before = index_load_pages(v, pages, table, schema, ids, (n - 1) as nat);
        if let Ok(d) = pages[ids[n - 1]] {
            lemma_kept_load_slots(before, table, schema, d, ids[n - 1], page_count(d) as nat);
            lemma_kept_chain(
                v,
                before,
                index_load_slots(before, table, schema, d, ids[n - 1], page_count(d) as nat),
                table,
            );
        }
    }
}

/// A row pointer leads to one of the first `n` pages, or to one of the first `m` slots of the next.
pub open spec fn passed(ids: Seq<u32>, n: nat, m: nat, rid: Rid) -> bool {
    ||| ids.take(n as int).contains(rid.page_id)
    ||| (n < ids.len() && rid.page_id == ids[n as int] && rid.slot_id < m)
}

/// The keys of the rows that were passed.
pub open spec fn passed_keys(
    keys: spec_fn(Rid) -> Option<i64>,
    ids: Seq<u32>,
    n: nat,
    m: nat,
) -> spec_fn(Rid) -> Option<i64> {
    |rid: Rid|
        if passed(ids, n, m, rid) {
            keys(rid)
        } else {
            None
        }
}

/// No two rows have the same key.
pub open spec fn keys_apart(keys: spec_fn(Rid) -> Option<i64>) -> bool {
    forall|a: Rid, b: Rid| (#[trigger] keys(a)) is Some && keys(a) == #[trigger] keys(b) ==> a == b
}

proof fn lemma_load_slot(
    r: DbView,
    table: Seq<char>,
    ids: Seq<u32>,
    v: Seq<IndexView>,
    n: nat,
    m: nat,
)
    requires
        heap_ok(r),
        r.catalog.get(table) is Some,
        table_pages(r.tables, table) == Some(ids),
        columns_apart((r.catalog.get(table)->0).columns),
        (r.catalog.get(table)->0).primary_key is Some,
        keys_apart(keys_at(r, table)),
        n < ids.len(),
        m < page_count(r.pages[ids[n as int]]->Ok_0),
        ({
            let key = (r.catalog.get(table)->0).primary_key->0;
            &&& index_get(v, table, key) is Some
            &&& linked(
                index_get(v, table, key)->0,
                passed_keys(keys_at(r, table), ids, n, m),
            )
        }),
    ensures
        ({
            let schema = r.catalog.get(table)->0;
            let key = schema.primary_key->0;
            let d = r.pages[ids[n as int]]->Ok_0;
            let w = match page_get(d, m as int) {
                None => v,
                Some(t) => match deserialized(schema.columns, t) {
                    Err(_) => v,
                    Ok(row) => index_load_row(
                        v,
                        table,
                        schema,
                        row,
                        Rid { page_id: ids[n as int], slot_id: m as u16 },
                        schema.columns.len(),
                    ),
                },
            };
            &&& index_get(w, table, key) is Some
            &&& linked(
                index_get(w, table, key)->0,
                passed_keys(keys_at(r, table), ids, n, m + 1),
            )
        }),
{
    let schema = r.catalog.get(table)->0;
    let key = schema.primary_key->0;
    let id = ids[n as int];
    let d = r.pages[id]->Ok_0;
    let keys = keys_at(r, table);
    let f = passed_keys(keys, ids, n, m);
    let g = passed_keys(keys, ids, n, m + 1);
    let rid = Rid { page_id: id, slot_id: m as u16 };
    let e = index_get(v, table, key)->0;
    lemma_listed(r, table);
    lemma_key_column(table, schema.columns);
    lemma_good_list(r, table);
    let i = schema.pk_col()->0;
    assert(ids.contains(id));
    assert(!ids.take(n as int).contains(id)) by {
        let a = ids.take(n as int);
        if a.contains(id) {
            let j = choose|j: int| 0 <= j < a.len() && a[j] == id;
            assert(ids[j] == ids[n as int]);
        }
    }
    assert forall|x: Rid| x != rid implies #[trigger] g(x) == f(x) by {
        assert(passed(ids, n, m + 1, x) == passed(ids, n, m, x));
    }
    assert(f(rid) is None);
    assert(passed(ids, n, m + 1, rid));
    assert(tuple_at(r, table, rid) == page_get(d, m as int));
    match page_get(d, m as int) {
        None => {
            lemma_linked_same(e, f, g);
        },
        Some(t) => match deserialized(schema.columns, t) {
            Err(_) => {
                lemma_linked_same(e, f, g);
            },
            Ok(row) => {
                law_row_fits(schema.columns, t);
                lemma_row_loaded(v, table, schema, row, rid, schema.columns.len(), i);
                assert(g(rid) == key_in(schema, row));
                if let ValueView::Int(k) = row[i] {
                    if let Some(other) = rid_of(e, k) {
                        assert(f(other) == Some(k));
                        assert(keys(other) == Some(k));
                        assert(keys(rid) == Some(k));
                        assert(other == rid);
                    }
                }
                lemma_link(e, f, g, rid, row[i]);
            },
        },
    }
}

/// The index of a table is linked to the rows that were passed.
pub open spec fn filled(
    r: DbView,
    table: Seq<char>,
    ids: Seq<u32>,
    v: Seq<IndexView>,
    n: nat,
    m: nat,
) -> bool {
    let key = (r.catalog.get(table)->0).primary_key->0;
    &&& index_get(v, table, key) is Some
    &&& linked(index_get(v, table, key)->0, passed_keys(keys_at(r, table), ids, n, m))
}

proof fn lemma_load_slots(
    r: DbView,
    table: Seq<char>,
    ids: Seq<u32>,
    v: Seq<IndexView>,
    n: nat,
    m: nat,
)
    requires
        heap_ok(r),
        r.catalog.get(table) is Some,
        table_pages(r.tables, table) == Some(ids),
        columns_apart((r.catalog.get(table)->0).columns),
        (r.catalog.get(table)->0).primary_key is Some,
        keys_apart(keys_at(r, table)),
        n < ids.len(),
        m <= page_count(r.pages[ids[n as int]]->Ok_0),
        filled(r, table, ids, v, n, 0),
    ensures
        filled(
            r,
            table,
            ids,
            index_load_slots(
                v,
                table,
                r.catalog.get(table)->0,
                r.pages[ids[n as int]]->Ok_0,
                ids[n as int],
                m,
            ),
            n,
            m,
        ),
    decreases m,
{
    if m > 0 {
        lemma_load_slots(r, table, ids, v, n, (m - 1) as nat);
        let w = index_load_slots(
            v,
            table,
            r.catalog.get(table)->0,
            r.pages[ids[n as int]]->Ok_0,
            ids[n as int],
            (m - 1) as nat,
        );
        lemma_load_slot(r, table, ids, w, n, (m - 1) as nat);
    }
}

/// Having passed all slots of a page is having passed the page.
proof fn lemma_page_passed(r: DbView, table: Seq<char>, ids: Seq<u32>, v: Seq<IndexView>, n: nat)
    requires
        n < ids.len(),
        filled(r, table, ids, v, n, page_count(r.pages[ids[n as int]]->Ok_0) as nat),
        table_pages(r.tables, table) == Some(ids),
    ensures
        filled(r, table, ids, v, n + 1, 0),
{
    let key = (r.catalog.get(table)->0).primary_key->0;
    let keys = keys_at(r, table);
    let id = ids[n as int];
    let d = r.pages[id]->Ok_0;
    let m = page_count(d) as nat;
    let f = passed_keys(keys, ids, n, m);
    let g = passed_keys(keys, ids, n + 1, 0);
    let a = ids.take(n as int);
    let b = ids.take((n + 1) as int);
    assert(b =~= a.push(id));
    assert forall|x: Rid| #[trigger] g(x) == f(x) by {
        assert(b.contains(x.page_id) <==> a.contains(x.page_id) || x.page_id == id) by {
            if a.contains(x.page_id) {
                let i = choose|i: int| 0 <= i < a.len() && a[i] == x.page_id;
                assert(b[i] == x.page_id);
            }
            assert(b[n as int] == id);
        }
        if x.page_id == id && x.slot_id >= m {
            assert(page_get(d, x.slot_id as int) is None);
            assert(keys(x) is None);
        }
    }
    lemma_linked_same(index_get(v, table, key)->0, f, g);
}

proof fn lemma_load_pages(
    r: DbView,
    table: Seq<char>,
    ids: Seq<u32>,
    v: Seq<IndexView>,
    n: nat,
)
    requires
        heap_ok(r),
        r.catalog.get(table) is Some,
        table_pages(r.tables, table) == Some(ids),
        columns_apart((r.catalog.get(table)->0).columns),
        (r.catalog.get(table)->0).primary_key is Some,
        keys_apart(keys_at(r, table)),
        n <= ids.len(),
        filled(r, table, ids, v, 0, 0),
    ensures
        filled(
            r,
            table,
            ids,
            index_load_pages(v, r.pages, table, r.catalog.get(table)->0, ids, n),
            n,
            0,
        ),
    decreases n,
{
    if n > 0 {
        lemma_load_pages(r, table, ids, v, (n - 1) as nat);
        let schema = r.catalog.get(table)->0;
        let w = index_load_pages(v, r.pages, table, schema, ids, (n - 1) as nat);
        lemma_good_list(r, table);
        assert(page_good(r, ids[n - 1]));
        let d = r.pages[ids[n - 1]]->Ok_0;
        lemma_load_slots(r, table, ids, w, (n - 1) as nat, page_count(d) as nat);
        lemma_page_passed(
            r,
            table,
            ids,
            index_load_slots(w, table, schema, d, ids[n - 1], page_count(d) as nat),
            (n - 1) as nat,
        );
    }
}

/// Loading other tables leaves the indexes of a table alone; loading the table itself links its
/// index to its rows.
proof fn lemma_load_tables(r: DbView, table: Seq<char>, v: Seq<IndexView>, n: nat)
    requires
        heap_ok(r),
        r.catalog.get(table) is Some,
        table_pages(r.tables, table) is Some,
        n <= r.tables.len(),
        forall|i: int, j: int|
            0 <= i < j < r.tables.len() ==> (#[trigger] r.tables[i]).name != (
            #[trigger] r.tables[j]).name,
    ensures
        ({
            let w = index_load_tables(v, r.pages, r.catalog, r.tables, n);
            let ids = table_pages(r.tables, table)->0;
            let p = position(
                entry_names(r.tables),
                table,
                0,
            )->0;
            &&& w.len() == v.len()
            &&& forall|i: int| 0 <= i < v.len() ==> (#[trigger] w[i]).table == v[i].table
            &&& n <= p ==> forall|c: Seq<char>| #[trigger]
                index_get(w, table, c) == index_get(v, table, c)
            &&& n > p && columns_apart((r.catalog.get(table)->0).columns) && (r.catalog.get(
                table,
            )->0).primary_key is Some && keys_apart(keys_at(r, table)) && filled(
                r,
                table,
                ids,
                v,
                0,
                0,
            ) ==> filled(r, table, ids, w, ids.len(), 0)
            &&& forall|c: Seq<char>| #[trigger]
                index_get(w, table, c) is Some <==> index_get(v, table, c) is Some
        }),
    decreases n,
{
    let p = lemma_list(r.tables, table);
    if n > 0 {
        lemma_load_tables(r, table, v, (n - 1) as nat);
        let before = index_load_tables(v, r.pages, r.catalog, r.tables, (n - 1) as nat);
        let now = index_load_tables(v, r.pages, r.catalog, r.tables, n);
        let t = r.tables[n - 1];
        let ids = table_pages(r.tables, table)->0;
        if let Some(schema) = r.catalog.get(t.name) {
            lemma_kept_load_pages(before, r.pages, t.name, schema, t.pages, t.pages.len());
            assert forall|i: int| 0 <= i < v.len() implies (#[trigger] now[i]).table
                == v[i].table by {
                assert(now[i].table == before[i].table);
            }
            if n - 1 == p {
                let key = schema.primary_key->0;
                assert(t.name == table);
                assert(t.pages == ids);
                assert(now == index_load_pages(before, r.pages, table, schema, ids, ids.len()));
                if columns_apart(schema.columns) && schema.primary_key is Some && keys_apart(
                    keys_at(r, table),
                ) && filled(r, table, ids, v, 0, 0) {
                    assert(index_get(before, table, key) == index_get(v, table, key));
                    assert(filled(r, table, ids, before, 0, 0));
                    lemma_load_pages(r, table, ids, before, ids.len());
                    assert(filled(r, table, ids, now, ids.len(), 0));
                }
                lemma_same_columns_pages(
                    before,
                    r.pages,
                    table,
                    schema,
                    ids,
                    ids.len(),
                );
                assert forall|c: Seq<char>| #[trigger]
                    index_get(now, table, c) is Some <==> index_get(v, table, c) is Some by {
                    assert(index_get(before, table, c) is Some <==> index_get(v, table, c) is Some);
                }
            } else {
                assert(t.name != table) by {
                    assert(r.tables[p].name == table);
                }
                assert forall|c: Seq<char>| #[trigger] index_get(now, table, c) == index_get(
                    before,
                    table,
                    c,
                ) by {}
                assert forall|c: Seq<char>| #[trigger]
                    index_get(now, table, c) is Some <==> index_get(v, table, c) is Some by {
                    assert(index_get(before, table, c) is Some <==> index_get(v, table, c) is Some);
                }
                if n <= p {
                    assert forall|c: Seq<char>| #[trigger] index_get(now, table, c) == index_get(
                        v,
                        table,
                        c,
                    ) by {
                        assert(index_get(before, table, c) == index_get(v, table, c));
                    }
                } else {
                    let key = (r.catalog.get(table)->0).primary_key->0;
                    assert(index_get(now, table, key) == index_get(before, table, key));
                }
            }
        } else {
            assert(n - 1 != p);
            assert(now == before);
        }
    }
}

proof fn lemma_same_columns_row(
    v: Seq<IndexView>,
    table: Seq<char>,
    schema: SchemaView,
    row: RowView,
    rid: Rid,
    n: nat,
)
    ensures
        forall|c: Seq<char>| #[trigger]
            index_get(index_load_row(v, table, schema, row, rid, n), table, c) is Some
                <==> index_get(v, table, c) is Some,
    decreases n,
{
    if n > 0 {
        lemma_same_columns_row(v, table, schema, row, rid, (n - 1) as nat);
        let before = index_load_row(v, table, schema, row, rid, (n - 1) as nat);
        let name = schema.columns[n - 1].name;
        if let ValueView::Int(k) = row[schema.col(name)->0] {
            let now = index_insert(before, table, name, k, rid);
            assert forall|c: Seq<char>| #[trigger] index_get(now, table, c) is Some <==> index_get(
                v,
                table,
                c,
            ) is Some by {
                lemma_get_inserted(before, table, name, k, rid, table, c);
                assert(index_get(before, table, c) is Some <==> index_get(v, table, c) is Some);
            }
        }
    }
}

proof fn lemma_same_columns_slots(
    v: Seq<IndexView>,
    table: Seq<char>,
    schema: SchemaView,
    d: Seq<u8>,
    id: u32,
    n: nat,
)
    ensures
        forall|c: Seq<char>| #[trigger]
            index_get(index_load_slots(v, table, schema, d, id, n), table, c) is Some
                <==> index_get(v, table, c) is Some,
    decreases n,
{
    if n > 0 {
        lemma_same_columns_slots(v, table, schema, d, id, (n - 1) as nat);
        let before = index_load_slots(v, table, schema, d, id, (n - 1) as nat);
        let now = index_load_slots(v, table, schema, d, id, n);
        if let Some(t) = page_get(d, n - 1) {
            if let Ok(row) = deserialized(schema.columns, t) {
                let rid = Rid { page_id: id, slot_id: (n - 1) as u16 };
                lemma_same_columns_row(before, table, schema, row, rid, schema.columns.len());
            }
        }
        assert forall|c: Seq<char>| #[trigger] index_get(now, table, c) is Some <==> index_get(
            v,
            table,
            c,
        ) is Some by {
            assert(index_get(before, table, c) is Some <==> index_get(v, table, c) is Some);
        }
    }
}

proof fn lemma_same_columns_pages(
    v: Seq<IndexView>,
    pages: Map<u32, Result<Seq<u8>, StorageError>>,
    table: Seq<char>,
    schema: SchemaView,
    ids: Seq<u32>,
    n: nat,
)
    ensures
        forall|c: Seq<char>| #[trigger]
            index_get(index_load_pages(v, pages, table, schema, ids, n), table, c) is Some
                <==> index_get(v, table, c) is Some,
    decreases n,
{
    if n > 0 {
        lemma_same_columns_pages(v, pages, table, schema, ids, (n - 1) as nat);
        let before = index_load_pages(v, pages, table, schema, ids, (n - 1) as nat);
        let now = index_load_pages(v, pages, table, schema, ids, n);
        if let Ok(d) = pages[ids[n - 1]] {
            lemma_same_columns_slots(before, table, schema, d, ids[n - 1], page_count(d) as nat);
        }
        assert forall|c: Seq<char>| #[trigger] index_get(now, table, c) is Some <==> index_get(
            v,
            table,
            c,
        ) is Some by {
            assert(index_get(before, table, c) is Some <==> index_get(v, table, c) is Some);
        }
    }
}

// After a restart.

/// The keys of the rows after a restart are those before it.
proof fn lemma_tuple_back(db: DbView, file: Seq<Seq<u8>>, table: Seq<char>, rid: Rid)
    requires
        durable(db),
        on_file(db, file),
        db.catalog.get(table) is Some,
    ensures
        tuple_at(restarted(db, file), table, rid) == tuple_at(db, table, rid),
{
    lemma_lists_back(db, file, table);
    let ids = table_pages(db.tables, table)->0;
    let j = lemma_list(db.tables, table);
    if ids.contains(rid.page_id) {
        let k = choose|k: int| 0 <= k < ids.len() && ids[k] == rid.page_id;
        lemma_page_back(db, file, rid.page_id, j, k);
    }
}

proof fn lemma_keys_back(db: DbView, file: Seq<Seq<u8>>, table: Seq<char>, rid: Rid)
    requires
        durable(db),
        on_file(db, file),
        db.catalog.get(table) is Some,
    ensures
        keys_at(restarted(db, file), table)(rid) == keys_at(db, table)(rid),
{
    lemma_tuple_back(db, file, table, rid);
}

/// Which columns of a table have an index after a restart: the primary key.
proof fn lemma_indexed(c: CatalogView, table: Seq<char>, column: Seq<char>)
    requires
        defs_ok(c),
        c.get(table) is Some,
    ensures
        c.index_defs.contains((table, column)) <==> (c.get(table)->0).primary_key == Some(column),
{
    let names = table_names(c.tables);
    lemma_position(names, table, 0);
    let i = position(names, table, 0)->0;
    assert(names[i] == c.tables[i].name);
    if c.index_defs.contains((table, column)) {
        let j = choose|j: int|
            0 <= j < c.index_defs.len() && c.index_defs[j] == (table, column);
        assert(c.get(c.index_defs[j].0) is Some);
    }
}

/// The index of a table after a restart.
pub proof fn lemma_index_back(db: DbView, file: Seq<Seq<u8>>, table: Seq<char>)
    requires
        durable(db),
        on_file(db, file),
        defs_ok(db.catalog),
        db.catalog.get(table) is Some,
    ensures
        forall|c: Seq<char>| #[trigger]
            index_get(restarted(db, file).indexes, table, c) is Some <==> (db.catalog.get(
                table,
            )->0).primary_key == Some(c),
        columns_apart((db.catalog.get(table)->0).columns) && keyed(db, table) ==> keyed(
            restarted(db, file),
            table,
        ),
{
    let r = restarted(db, file);
    let c = db.catalog;
    let schema = c.get(table)->0;
    law_committed_rows_survive_restart(db, file);
    lemma_lists_back(db, file, table);
    let ids = table_pages(db.tables, table)->0;
    let defs = c.index_defs;
    let v = index_create_all(defs, defs.len());
    assert(defs.take(defs.len() as int) =~= defs);
    assert forall|i: int, j: int| 0 <= i < j < r.tables.len() implies (#[trigger] r.tables[i]).name
        != (#[trigger] r.tables[j]).name by {
        assert(c.tables[i].name != c.tables[j].name);
    }
    lemma_load_tables(r, table, v, r.tables.len());
    let p = lemma_list(r.tables, table);
    assert forall|column: Seq<char>| #[trigger] index_get(r.indexes, table, column) is Some <==>
        schema.primary_key == Some(column) by {
        lemma_created(defs, defs.len(), table, column);
        lemma_indexed(c, table, column);
        assert(index_get(v, table, column) is Some <==> defs.contains((table, column)));
    }
    if columns_apart(schema.columns) && keyed(db, table) && schema.primary_key is Some {
        let key = schema.primary_key->0;
        let f = keys_at(db, table);
        let g = keys_at(r, table);
        let e = index_get(db.indexes, table, key)->0;
        assert forall|a: Rid, b: Rid| (#[trigger] g(a)) is Some && g(a) == #[trigger] g(
            b,
        ) implies a == b by {
            lemma_keys_back(db, file, table, a);
            lemma_keys_back(db, file, table, b);
            let k = f(a)->0;
            assert(rid_of(e, k) == Some(a));
            assert(f(b) == Some(k));
            assert(rid_of(e, k) == Some(b));
        }
        lemma_created(defs, defs.len(), table, key);
        lemma_indexed(c, table, key);
        let none = index_get(v, table, key)->0;
        let start = passed_keys(g, ids, 0, 0);
        assert(none =~= Seq::empty());
        assert forall|k: i64, x: Rid| (#[trigger] rid_of(none, k)) == Some(x) <==> #[trigger] start(
            x,
        ) == Some(k) by {
            assert(!passed(ids, 0, 0, x));
        }
        assert(filled(r, table, ids, v, 0, 0));
        assert(filled(r, table, ids, r.indexes, ids.len(), 0));
        let end = passed_keys(g, ids, ids.len(), 0);
        assert forall|x: Rid| #[trigger] g(x) == end(x) by {
            assert(ids.take(ids.len() as int) =~= ids);
        }
        lemma_linked_same(index_get(r.indexes, table, key)->0, end, g);
        assert forall|x: Rid| tuple_at(r, table, x) == #[trigger] tuple_at(db, table, x) by {
            lemma_tuple_back(db, file, table, x);
        }
        lemma_values_alike(db, r, table);
    }
}

/// After a restart the indexes on primary keys lead to exactly the rows of their tables again.
pub proof fn law_keys_survive_restart(db: DbView, file: Seq<Seq<u8>>)
    requires
        durable(db),
        on_file(db, file),
        keys_ok(db),
        defs_ok(db.catalog),
    ensures
        keys_ok(restarted(db, file)),
{
    let r = restarted(db, file);
    let c = db.catalog;
    assert forall|table: Seq<char>|
        r.catalog.get(table) is Some && columns_apart(
            (r.catalog.get(table)->0).columns,
        ) implies #[trigger] keyed(r, table) by {
        assert(keyed(db, table));
        lemma_index_back(db, file, table);
    }
    let defs = c.index_defs;
    let v = index_create_all(defs, defs.len());
    lemma_created_tables(defs, defs.len());
    assert forall|i: int| 0 <= i < r.indexes.len() implies r.catalog.get(
        (#[trigger] r.indexes[i]).table,
    ) is Some by {
        lemma_loaded_tables(v, r.pages, c, r.tables, r.tables.len());
        assert(r.indexes[i].table == v[i].table);
        let j = choose|j: int| 0 <= j < defs.len() && (#[trigger] defs[j]).0 == v[i].table;
        assert(c.get(c.index_defs[j].0) is Some);
    }
}

proof fn lemma_loaded_tables(
    v: Seq<IndexView>,
    pages: Map<u32, Result<Seq<u8>, StorageError>>,
    catalog: CatalogView,
    tables: Seq<TableView>,
    n: nat,
)
    ensures
        index_load_tables(v, pages, catalog, tables, n).len() == v.len(),
        forall|i: int|
            0 <= i < v.len() ==> (#[trigger] index_load_tables(
                v,
                pages,
                catalog,
                tables,
                n,
            )[i]).table == v[i].table,
    decreases n,
{
    if n > 0 {
        lemma_loaded_tables(v, pages, catalog, tables, (n - 1) as nat);
        let before = index_load_tables(v, pages, catalog, tables, (n - 1) as nat);
        let now = index_load_tables(v, pages, catalog, tables, n);
        let t = tables[n - 1];
        if let Some(schema) = catalog.get(t.name) {
            lemma_kept_load_pages(before, pages, t.name, schema, t.pages, t.pages.len());
            assert forall|i: int| 0 <= i < v.len() implies (#[trigger] now[i]).table
                == v[i].table by {
                assert(now[i].table == before[i].table);
            }
        }
    }
}

/// A key leads to a row exactly when the two are an entry.
proof fn lemma_member(e: Seq<Entry>, k: i64, rid: Rid)
    requires
        sorted(e),
        unique(e),
    ensures
        rid_of(e, k) == Some(rid) <==> e.contains((k, rid)),
{
    law_search(e, k);
    if e.contains((k, rid)) {
        let i = choose|i: int| 0 <= i < e.len() && e[i] == (k, rid);
        assert forall|j: int| 0 <= j < i implies (#[trigger] e[j]).0 != k by {
            assert(e[j].0 != e[i].0);
        }
    }
    if rid_of(e, k) == Some(rid) {
        let b = below(e, k) as int;
        assert(e[b] == (k, rid));
    }
}

/// Entries in order and without repeated keys are determined by which they are.
proof fn lemma_same_entries(a: Seq<Entry>, b: Seq<Entry>)
    requires
        sorted(a),
        unique(a),
        sorted(b),
        unique(b),
        forall|x: Entry| #[trigger] a.contains(x) <==> b.contains(x),
    ensures
        a == b,
    decreases a.len(),
{
    if a.len() == 0 {
        if b.len() > 0 {
            assert(b.contains(b[0]));
            assert(a.contains(b[0]));
        }
        assert(a =~= b);
    } else {
        let n = a.len() - 1;
        assert(a.contains(a[n]));
        assert(b.contains(a[n]));
        let m = b.len() - 1;
        assert(b.contains(b[m]));
        assert(a.contains(b[m]));
        let i = choose|i: int| 0 <= i < b.len() && b[i] == a[n];
        let j = choose|j: int| 0 <= j < a.len() && a[j] == b[m];
        assert(a[j].0 <= a[n].0);
        assert(b[i].0 <= b[m].0);
        assert(i == m) by {
            if i < m {
                assert(b[i].0 != b[m].0);
            }
        }
        let x = a[n];
        let da = a.drop_last();
        let db = b.drop_last();
        assert forall|i: int, j: int| 0 <= i <= j < da.len() implies (#[trigger] da[i]).0 <= (
        #[trigger] da[j]).0 by {
            assert(a[i].0 <= a[j].0);
        }
        assert forall|i: int, j: int| 0 <= i <= j < db.len() implies (#[trigger] db[i]).0 <= (
        #[trigger] db[j]).0 by {
            assert(b[i].0 <= b[j].0);
        }
        assert forall|i: int, j: int| 0 <= i < j < da.len() implies (#[trigger] da[i]).0 != (
        #[trigger] da[j]).0 by {
            assert(a[i].0 != a[j].0);
        }
        assert forall|i: int, j: int| 0 <= i < j < db.len() implies (#[trigger] db[i]).0 != (
        #[trigger] db[j]).0 by {
            assert(b[i].0 != b[j].0);
        }
        assert forall|y: Entry| #[trigger] da.contains(y) <==> db.contains(y) by {
            lemma_last(a, y);
            lemma_last(b, y);
            assert(a.contains(y) <==> b.contains(y));
        }
        lemma_same_entries(da, db);
        assert(a =~= da.push(x));
        assert(b =~= db.push(x));
    }
}

/// Which entries are left without the last.
proof fn lemma_last(e: Seq<Entry>, y: Entry)
    requires
        e.len() > 0,
        unique(e),
    ensures
        e.drop_last().contains(y) <==> e.contains(y) && y != e.last(),
{
    let d = e.drop_last();
    if d.contains(y) {
        let i = choose|i: int| 0 <= i < d.len() && d[i] == y;
        assert(e[i] == y);
        assert(e[i].0 != e[e.len() - 1].0);
    }
    if e.contains(y) && y != e.last() {
        let i = choose|i: int| 0 <= i < e.len() && e[i] == y;
        assert(d[i] == y);
    }
}

/// Two indexes that are linked to the same rows are the same.
proof fn lemma_linked_alike(a: Seq<Entry>, b: Seq<Entry>, keys: spec_fn(Rid) -> Option<i64>)
    requires
        linked(a, keys),
        linked(b, keys),
    ensures
        a == b,
{
    assert forall|x: Entry| #[trigger] a.contains(x) <==> b.contains(x) by {
        lemma_member(a, x.0, x.1);
        lemma_member(b, x.0, x.1);
        assert(rid_of(a, x.0) == Some(x.1) <==> keys(x.1) == Some(x.0));
        assert(rid_of(b, x.0) == Some(x.1) <==> keys(x.1) == Some(x.0));
        assert(x == (x.0, x.1));
    }
    lemma_same_entries(a, b);
}

/// Only the primary key of the table has an index.
pub open spec fn key_only(db: DbView, table: Seq<char>) -> bool {
    forall|c: Seq<char>| #[trigger]
        index_get(db.indexes, table, c) is Some ==> (db.catalog.get(table)->0).primary_key == Some(
            c,
        )
}

/// A SELECT, with whatever WHERE, ORDER BY and LIMIT, returns after a restart what it returned
/// before.
pub proof fn law_selects_survive_restart(
    db: DbView,
    file: Seq<Seq<u8>>,
    table: Seq<char>,
    columns: SelectView,
    filter: Option<ExprView>,
    order_by: Option<(Seq<char>, OrderDir)>,
    limit: Option<u64>,
)
    requires
        durable(db),
        on_file(db, file),
        keys_ok(db),
        defs_ok(db.catalog),
        db.catalog.get(table) matches Some(schema) ==> columns_apart(schema.columns) && key_only(
            db,
            table,
        ),
    ensures
        select(restarted(db, file), table, columns, filter, order_by, limit) == select(
            db,
            table,
            columns,
            filter,
            order_by,
            limit,
        ),
{
    let r = restarted(db, file);
    if let Some(schema) = db.catalog.get(table) {
        lemma_listed(db, table);
        lemma_lists_back(db, file, table);
        let ids = table_pages(db.tables, table)->0;
        let j = lemma_list(db.tables, table);
        assert forall|k: int| 0 <= k < ids.len() implies r.pages[#[trigger] ids[k]]
            == db.pages[ids[k]] by {
            lemma_page_back(db, file, ids[k], j, k);
        }
        assert(keyed(db, table));
        lemma_index_back(db, file, table);
        assert forall|c: Seq<char>| #[trigger] index_get(r.indexes, table, c) == index_get(
            db.indexes,
            table,
            c,
        ) by {
            if schema.primary_key == Some(c) {
                let f = keys_at(db, table);
                let g = keys_at(r, table);
                assert forall|x: Rid| #[trigger] g(x) == f(x) by {
                    lemma_keys_back(db, file, table, x);
                }
                let e = index_get(db.indexes, table, c)->0;
                lemma_linked_same(e, f, g);
                lemma_linked_alike(index_get(r.indexes, table, c)->0, e, g);
            } else {
                assert(!(index_get(db.indexes, table, c) is Some));
                assert(!(index_get(r.indexes, table, c) is Some));
            }
        }
        lemma_scan_alike(db, r, schema, filter, columns, ids, ids.len());
        if let Some(e) = filter {
            assert(index_get(r.indexes, table, e.left) == index_get(db.indexes, table, e.left));
            assert(index_has(r.indexes, table, e.left) == (index_get(
                r.indexes,
                table,
                e.left,
            ) is Some));
            assert(index_has(db.indexes, table, e.left) == (index_get(
                db.indexes,
                table,
                e.left,
            ) is Some));
            assert(index_rids(r.indexes, schema, table, e) == index_rids(db.indexes, schema, table, e));
            if let Some(rids) = index_rids(db.indexes, schema, table, e) {
                lemma_rids_alike(db, r, schema, e, columns, ids, rids, rids.len());
            }
        }
        assert(found_rows(r, schema, table, columns, filter, ids) == found_rows(
            db,
            schema,
            table,
            columns,
            filter,
            ids,
        ));
    }
}

proof fn lemma_scan_alike(
    db: DbView,
    r: DbView,
    schema: SchemaView,
    filter: Option<ExprView>,
    columns: SelectView,
    ids: Seq<u32>,
    n: nat,
)
    requires
        n <= ids.len(),
        forall|k: int| 0 <= k < ids.len() ==> r.pages[#[trigger] ids[k]] == db.pages[ids[k]],
    ensures
        scan_pages(r.pages, schema, filter, columns, ids, n) == scan_pages(
            db.pages,
            schema,
            filter,
            columns,
            ids,
            n,
        ),
    decreases n,
{
    if n > 0 {
        lemma_scan_alike(db, r, schema, filter, columns, ids, (n - 1) as nat);
        assert(r.pages[ids[n - 1]] == db.pages[ids[n - 1]]);
    }
}

proof fn lemma_rids_alike(
    db: DbView,
    r: DbView,
    schema: SchemaView,
    filter: ExprView,
    columns: SelectView,
    ids: Seq<u32>,
    rids: Seq<Rid>,
    n: nat,
)
    requires
        forall|k: int| 0 <= k < ids.len() ==> r.pages[#[trigger] ids[k]] == db.pages[ids[k]],
    ensures
        rid_rows(r.pages, schema, filter, columns, ids, rids, n) == rid_rows(
            db.pages,
            schema,
            filter,
            columns,
            ids,
            rids,
            n,
        ),
    decreases n,
{
    if n > 0 {
        lemma_rids_alike(db, r, schema, filter, columns, ids, rids, (n - 1) as nat);
        let id = rids[n - 1].page_id;
        if ids.contains(id) {
            let k = choose|k: int| 0 <= k < ids.len() && ids[k] == id;
            assert(r.pages[ids[k]] == db.pages[ids[k]]);
        }
    }
}

/// Every statement keeps the index definitions those of the primary keys.
pub proof fn law_index_definitions_are_kept(db: DbView, stmt: StatementView)
    requires
        heap_ok(db),
        defs_ok(db.catalog),
        db.num_pages < u32::MAX,
    ensures
        defs_ok(execute(db, stmt).0.catalog),
{
    match stmt {
        StatementView::CreateTable { table, columns } => {
            if db.catalog.get(table) is None {
                lemma_create_defs(db, table, columns);
            }
        },
        StatementView::Insert { table, values } => {},
        StatementView::Select { .. } => {},
        StatementView::Delete { table, filter } => lemma_sweep_catalog(db, table, filter, None),
        StatementView::Update { table, assignments, filter } => lemma_sweep_catalog(
            db,
            table,
            filter,
            Some(assignments),
        ),
    }
}

proof fn lemma_sweep_catalog(
    db: DbView,
    table: Seq<char>,
    filter: Option<ExprView>,
    set: Option<Seq<AssignmentView>>,
)
    requires
        heap_ok(db),
    ensures
        sweep(db, table, filter, set).0.catalog == db.catalog,
{
    if sweep(db, table, filter, set).1 is Err {
        law_failed_sweep_changes_nothing(db, table, filter, set);
    } else {
        lemma_listed(db, table);
        lemma_good_list(db, table);
        let ids = table_pages(db.tables, table)->0;
        let begun = DbView { wal: wal_begin(db.wal), ..db };
        lemma_same_heap(db, begun);
        assert forall|k: int| 0 <= k < ids.len() implies page_good(begun, #[trigger] ids[k]) by {
            assert(page_good(db, ids[k]));
        }
        lemma_pages(begun, sweep_of(db, table, filter, set), ids, ids.len());
    }
}

proof fn lemma_create_defs(db: DbView, table: Seq<char>, columns: Seq<ColumnView>)
    requires
        defs_ok(db.catalog),
        db.catalog.get(table) is None,
    ensures
        defs_ok(create_table(db, table, columns).0.catalog),
{
    let c = db.catalog;
    let after = create_table(db, table, columns).0.catalog;
    let schema = new_schema(table, columns);
    let names = table_names(c.tables);
    assert(table_names(after.tables) =~= names.push(table));
    assert forall|other: Seq<char>| #[trigger] after.get(other) == (if other == table {
        Some(schema)
    } else {
        c.get(other)
    }) by {
        lemma_position_push(names, table, other, 0);
        lemma_position(names, other, 0);
    }
    assert forall|x: (Seq<char>, Seq<char>)| #[trigger]
        c.index_defs.contains(x) implies after.index_defs.contains(x) by {
        let j = choose|j: int| 0 <= j < c.index_defs.len() && c.index_defs[j] == x;
        assert(after.index_defs[j] == x);
    }
    assert forall|i: int| 0 <= i < after.tables.len() implies ((
    #[trigger] after.tables[i]).primary_key matches Some(key) ==> after.index_defs.contains(
        (after.tables[i].name, key),
    )) by {
        if i < c.tables.len() {
            assert(after.tables[i] == c.tables[i]);
        } else if let Some(key) = schema.primary_key {
            assert(after.index_defs[c.index_defs.len() as int] == (table, key));
        }
    }
    assert forall|j: int| 0 <= j < after.index_defs.len() implies {
        let d = #[trigger] after.index_defs[j];
        &&& after.get(d.0) is Some
        &&& (after.get(d.0)->0).primary_key == Some(d.1)
    } by {
        if j < c.index_defs.len() {
            assert(after.index_defs[j] == c.index_defs[j]);
            assert(c.get(c.index_defs[j].0) is Some);
        }
    }
}

} // verus!
