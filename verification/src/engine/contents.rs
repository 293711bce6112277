//! What a table holds, and how statements change it.
use crate::engine::catalog::{
    deserialized, fits, law_row_round_trip, lemma_position, new_schema, position, row_bytes,
    serialize_upto, serialized, storable, table_names, value_bytes, SchemaView,
};
use crate::engine::model::{
    db_wf, entry_names, insert, insert_at, insert_new, log_takes, place_for, push_some, scan_pages,
    scan_slots, select, table_pages, tables_put, tuple_row, DbView, Place, RowView, TableView,
};
use crate::engine::tables::lemma_tables_put;
use crate::index::node::Rid;
use crate::recovery::wal::{
    page_can_overwrite, page_or_blank, page_try_drop, page_try_overwrite, page_try_put, wal_begin,
};
use crate::sql::ast::{ColumnView, ExprView, SelectView};
use crate::storage::error::StorageError;
use crate::storage::page::{
    law_blank, law_body_reads, law_body_wf, law_delete, law_fits, law_insert, law_update,
    page_blank, page_body, page_count, page_drop, page_fits, page_get, page_live, page_overwrite,
    page_put, page_room, page_wf, PAGE_SIZE,
};
use vstd::prelude::*;

verus! {

/// A stored row: where it is, and its bytes.
#[verifier::ext_equal]
pub struct Cell {
    pub rid: Rid,
    pub tuple: Seq<u8>,
}

/// The rows in the first `n` slots of page `id`.
pub open spec fn page_cells(id: u32, d: Seq<u8>, n: nat) -> Seq<Cell>
    decreases n,
{
    if n == 0 {
        Seq::empty()
    } else {
        let before = page_cells(id, d, (n - 1) as nat);
        match page_get(d, n - 1) {
            None => before,
            Some(t) => before.push(
                Cell { rid: Rid { page_id: id, slot_id: (n - 1) as u16 }, tuple: t },
            ),
        }
    }
}

/// The rows in the first `n` pages of `ids`.
pub open spec fn cells_upto(
    pages: Map<u32, Result<Seq<u8>, StorageError>>,
    ids: Seq<u32>,
    n: nat,
) -> Seq<Cell>
    decreases n,
{
    if n == 0 {
        Seq::empty()
    } else {
        let d = pages[ids[n - 1]]->Ok_0;
        cells_upto(pages, ids, (n - 1) as nat) + page_cells(ids[n - 1], d, page_count(d) as nat)
    }
}

/// The rows that a table holds, in the order of its pages and slots.
pub open spec fn table_cells(db: DbView, table: Seq<char>) -> Seq<Cell> {
    let ids = table_pages(db.tables, table)->0;
    cells_upto(db.pages, ids, ids.len())
}

/// What stored rows contribute to a selection.
pub open spec fn cell_rows(
    schema: SchemaView,
    filter: Option<ExprView>,
    columns: SelectView,
    cells: Seq<Cell>,
) -> Result<Seq<RowView>, Seq<char>>
    decreases cells.len(),
{
    if cells.len() == 0 {
        Ok(Seq::empty())
    } else {
        match cell_rows(schema, filter, columns, cells.drop_last()) {
            Err(e) => Err(e),
            Ok(rows) => match tuple_row(schema, filter, columns, cells.last().tuple) {
                Err(e) => Err(e),
                Ok(r) => Ok(push_some(rows, r)),
            },
        }
    }
}

/// A page is allocated, can be read and is well formed.
pub open spec fn page_good(db: DbView, id: u32) -> bool {
    &&& id < db.num_pages
    &&& db.pages[id] matches Ok(d) && page_wf(d)
}

/// The pages of all tables are allocated, can be read and are well formed, and no page is listed
/// twice.
pub open spec fn heap_ok(db: DbView) -> bool {
    &&& db_wf(db)
    &&& forall|i: int, k: int|
        0 <= i < db.tables.len() && 0 <= k < db.tables[i].pages.len() ==> page_good(
            db,
            #[trigger] db.tables[i].pages[k],
        )
    &&& forall|i: int, k: int, j: int, l: int|
        0 <= i < db.tables.len() && 0 <= k < db.tables[i].pages.len() && 0 <= j < db.tables.len()
            && 0 <= l < db.tables[j].pages.len() && (i != j || k != l) ==> (
        #[trigger] db.tables[i].pages[k]) != (#[trigger] db.tables[j].pages[l])
    &&& forall|i: int| 0 <= i < db.tables.len() ==> (#[trigger] db.tables[i]).pages.len() <= db.num_pages
}

// Scanning.

proof fn lemma_cell_rows_add(
    schema: SchemaView,
    filter: Option<ExprView>,
    columns: SelectView,
    a: Seq<Cell>,
    b: Seq<Cell>,
)
    ensures
        cell_rows(schema, filter, columns, a + b) == (match cell_rows(schema, filter, columns, a) {
            Err(e) => Err::<Seq<RowView>, Seq<char>>(e),
            Ok(rows) => match cell_rows(schema, filter, columns, b) {
                Err(e) => Err(e),
                Ok(more) => Ok(rows + more),
            },
        }),
    decreases b.len(),
{
    if b.len() == 0 {
        assert(a + b =~= a);
        if let Ok(rows) = cell_rows(schema, filter, columns, a) {
            assert(rows + Seq::<RowView>::empty() =~= rows);
        }
    } else {
        lemma_cell_rows_add(schema, filter, columns, a, b.drop_last());
        assert((a + b).drop_last() =~= a + b.drop_last());
        assert((a + b).last() == b.last());
        if let (Ok(rows), Ok(more)) = (
            cell_rows(schema, filter, columns, a),
            cell_rows(schema, filter, columns, b.drop_last()),
        ) {
            if let Ok(Some(r)) = tuple_row(schema, filter, columns, b.last().tuple) {
                assert((rows + more).push(r) =~= rows + more.push(r));
            }
        }
    }
}

proof fn lemma_scan_slots(
    schema: SchemaView,
    filter: Option<ExprView>,
    columns: SelectView,
    id: u32,
    d: Seq<u8>,
    rows: Seq<RowView>,
    n: nat,
)
    ensures
        scan_slots(schema, filter, columns, d, rows, n) == (match cell_rows(
            schema,
            filter,
            columns,
            page_cells(id, d, n),
        ) {
            Err(e) => Err::<Seq<RowView>, Seq<char>>(e),
            Ok(more) => Ok(rows + more),
        }),
    decreases n,
{
    if n == 0 {
        assert(rows + Seq::<RowView>::empty() =~= rows);
    } else {
        lemma_scan_slots(schema, filter, columns, id, d, rows, (n - 1) as nat);
        let before = page_cells(id, d, (n - 1) as nat);
        if let Some(t) = page_get(d, n - 1) {
            let now = page_cells(id, d, n);
            assert(now.drop_last() =~= before);
            if let (Ok(more), Ok(Some(r))) = (
                cell_rows(schema, filter, columns, before),
                tuple_row(schema, filter, columns, t),
            ) {
                assert((rows + more).push(r) =~= rows + more.push(r));
            }
        }
    }
}

pub proof fn lemma_scan_pages(
    pages: Map<u32, Result<Seq<u8>, StorageError>>,
    schema: SchemaView,
    filter: Option<ExprView>,
    columns: SelectView,
    ids: Seq<u32>,
    n: nat,
)
    requires
        n <= ids.len(),
        forall|k: int| 0 <= k < n ==> pages[#[trigger] ids[k]] is Ok,
    ensures
        scan_pages(pages, schema, filter, columns, ids, n) == cell_rows(
            schema,
            filter,
            columns,
            cells_upto(pages, ids, n),
        ),
    decreases n,
{
    if n > 0 {
        lemma_scan_pages(pages, schema, filter, columns, ids, (n - 1) as nat);
        let id = ids[n - 1];
        let d = pages[id]->Ok_0;
        let before = cells_upto(pages, ids, (n - 1) as nat);
        let here = page_cells(id, d, page_count(d) as nat);
        lemma_cell_rows_add(schema, filter, columns, before, here);
        if let Ok(rows) = cell_rows(schema, filter, columns, before) {
            lemma_scan_slots(schema, filter, columns, id, d, rows, page_count(d) as nat);
        }
    }
}

/// The page list of a table is one of the lists.
pub proof fn lemma_list(tables: Seq<TableView>, table: Seq<char>) -> (i: int)
    requires
        table_pages(tables, table) is Some,
    ensures
        0 <= i < tables.len(),
        tables[i].name == table,
        tables[i].pages == table_pages(tables, table)->0,
        position(entry_names(tables), table, 0) == Some(i),
{
    lemma_position(entry_names(tables), table, 0);
    let i = position(entry_names(tables), table, 0)->0;
    assert(entry_names(tables)[i] == tables[i].name);
    i
}

/// Every table of the catalog has a page list, and its schema is that of a new table.
pub proof fn lemma_listed(db: DbView, table: Seq<char>)
    requires
        db_wf(db),
        db.catalog.get(table) is Some,
    ensures
        table_pages(db.tables, table) is Some,
        (db.catalog.get(table)->0).name == table,
        ({
            let s = db.catalog.get(table)->0;
            s == new_schema(table, s.columns)
        }),
{
    let names = table_names(db.catalog.tables);
    lemma_position(names, table, 0);
    let i = position(names, table, 0)->0;
    assert(db.catalog.tables[i].name == names[i]);
}

/// A SELECT without WHERE, ORDER BY and LIMIT reads the rows that the table holds, one after the
/// other.
pub proof fn law_select_reads_table(db: DbView, table: Seq<char>, columns: SelectView)
    requires
        heap_ok(db),
        db.catalog.get(table) is Some,
    ensures
        select(db, table, columns, None, None, None) == cell_rows(
            db.catalog.get(table)->0,
            None,
            columns,
            table_cells(db, table),
        ),
{
    lemma_listed(db, table);
    let i = lemma_list(db.tables, table);
    let ids = db.tables[i].pages;
    assert forall|k: int| 0 <= k < ids.len() implies db.pages[#[trigger] ids[k]] is Ok by {
        assert(page_good(db, db.tables[i].pages[k]));
    }
    lemma_scan_pages(db.pages, db.catalog.get(table)->0, None, columns, ids, ids.len());
}

// Pages.

/// What putting a tuple that fits into a page does to its rows.
pub proof fn lemma_put(d: Seq<u8>, t: Seq<u8>)
    requires
        page_wf(d),
        page_fits(d, t.len()),
    ensures
        ({
            let e = page_body(page_try_put(d, t));
            &&& page_wf(e)
            &&& page_body(e) == e
            &&& page_count(e) == page_count(d) + 1
            &&& page_get(e, page_count(d) as int) == Some(t)
            &&& forall|i: int| i != page_count(d) ==> #[trigger] page_get(e, i) == page_get(d, i)
        }),
{
    law_insert(d, t);
    let f = page_put(d, t);
    lemma_body_alike(f);
}

/// What taking a tuple out of a page does to its rows.
pub proof fn lemma_drop(d: Seq<u8>, slot: u16)
    requires
        page_wf(d),
        page_live(d, slot as int),
    ensures
        ({
            let e = page_body(page_try_drop(d, slot));
            &&& page_wf(e)
            &&& page_body(e) == e
            &&& page_count(e) == page_count(d)
            &&& page_get(e, slot as int) is None
            &&& forall|i: int| i != slot ==> #[trigger] page_get(e, i) == page_get(d, i)
        }),
{
    law_delete(d, slot as int);
    lemma_body_alike(page_drop(d, slot as int));
}

/// What overwriting a tuple in place does to the rows of a page.
pub proof fn lemma_overwrite(d: Seq<u8>, slot: u16, u: Seq<u8>)
    requires
        page_wf(d),
        page_can_overwrite(d, slot, u),
    ensures
        ({
            let e = page_body(page_try_overwrite(d, slot, u));
            let t = page_get(d, slot as int)->0;
            &&& page_wf(e)
            &&& page_body(e) == e
            &&& page_count(e) == page_count(d)
            &&& page_get(e, slot as int) == Some(u + t.subrange(u.len() as int, t.len() as int))
            &&& forall|i: int| i != slot ==> #[trigger] page_get(e, i) == page_get(d, i)
        }),
{
    law_update(d, slot as int, u);
    lemma_body_alike(page_overwrite(d, slot as int, u));
}

/// A page without its checksum reads like the page.
pub proof fn lemma_body_alike(f: Seq<u8>)
    requires
        page_wf(f),
    ensures
        ({
            let e = page_body(f);
            &&& page_wf(e)
            &&& page_body(e) == e
            &&& page_count(e) == page_count(f)
            &&& forall|i: int| #[trigger] page_get(e, i) == page_get(f, i)
        }),
{
    let e = page_body(f);
    assert(e.len() == PAGE_SIZE);
    assert(page_body(e) =~= e);
    law_body_reads(e, f);
    law_body_wf(f, e);
}

/// A new page is well formed and holds no rows.
pub proof fn lemma_blank(id: u32)
    ensures
        ({
            let e = page_body(page_blank(id));
            &&& page_wf(e)
            &&& page_body(e) == e
            &&& page_count(e) == 0
        }),
{
    law_blank(id);
    lemma_body_alike(page_blank(id));
}

proof fn lemma_page_cells_same(id: u32, d: Seq<u8>, e: Seq<u8>, n: nat)
    requires
        forall|i: int| 0 <= i < n ==> #[trigger] page_get(d, i) == page_get(e, i),
    ensures
        page_cells(id, d, n) == page_cells(id, e, n),
    decreases n,
{
    if n > 0 {
        lemma_page_cells_same(id, d, e, (n - 1) as nat);
        assert(page_get(d, n - 1) == page_get(e, n - 1));
    }
}

pub proof fn lemma_cells_same(
    a: Map<u32, Result<Seq<u8>, StorageError>>,
    b: Map<u32, Result<Seq<u8>, StorageError>>,
    ids: Seq<u32>,
    n: nat,
)
    requires
        n <= ids.len(),
        forall|k: int| 0 <= k < n ==> a[#[trigger] ids[k]] == b[ids[k]],
    ensures
        cells_upto(a, ids, n) == cells_upto(b, ids, n),
    decreases n,
{
    if n > 0 {
        lemma_cells_same(a, b, ids, (n - 1) as nat);
        assert(a[ids[n - 1]] == b[ids[n - 1]]);
    }
}

/// The rows of the first `n` pages of a longer list.
proof fn lemma_cells_prefix(
    pages: Map<u32, Result<Seq<u8>, StorageError>>,
    ids: Seq<u32>,
    more: Seq<u32>,
    n: nat,
)
    requires
        n <= ids.len(),
    ensures
        cells_upto(pages, ids + more, n) == cells_upto(pages, ids, n),
    decreases n,
{
    if n > 0 {
        lemma_cells_prefix(pages, ids, more, (n - 1) as nat);
        assert((ids + more)[n - 1] == ids[n - 1]);
    }
}

/// A database after one page became `e`: nothing else that tables are made of changed.
pub open spec fn page_replaced(db: DbView, after: DbView, id: u32, e: Seq<u8>) -> bool {
    &&& after.catalog == db.catalog
    &&& after.tables == db.tables
    &&& after.num_pages == db.num_pages
    &&& after.pages == db.pages.insert(id, Ok(e))
}

/// Replacing a page by a well-formed one keeps the tables in order.
pub proof fn lemma_heap_page(db: DbView, after: DbView, id: u32, e: Seq<u8>)
    requires
        heap_ok(db),
        page_replaced(db, after, id, e),
        page_wf(e),
        page_body(e) == e,
    ensures
        heap_ok(after),
{
    assert forall|i: int, k: int|
        0 <= i < after.tables.len() && 0 <= k < after.tables[i].pages.len() implies page_good(
        after,
        #[trigger] after.tables[i].pages[k],
    ) by {
        assert(page_good(db, db.tables[i].pages[k]));
    }
}

// Inserting.

proof fn lemma_insert_cells(
    pages: Map<u32, Result<Seq<u8>, StorageError>>,
    ids: Seq<u32>,
    k: int,
    d: Seq<u8>,
    t: Seq<u8>,
    n: nat,
)
    requires
        0 <= k < n <= ids.len(),
        ids.no_duplicates(),
        pages[ids[k]] == Ok::<Seq<u8>, StorageError>(d),
        page_wf(d),
        page_fits(d, t.len()),
    ensures
        cells_upto(pages.insert(ids[k], Ok(page_body(page_try_put(d, t)))), ids, n) == cells_upto(
            pages,
            ids,
            n,
        ).insert(
            cells_upto(pages, ids, (k + 1) as nat).len() as int,
            Cell { rid: Rid { page_id: ids[k], slot_id: page_count(d) }, tuple: t },
        ),
        cells_upto(pages, ids, (k + 1) as nat).len() <= cells_upto(pages, ids, n).len(),
    decreases n,
{
    lemma_put(d, t);
    let e = page_body(page_try_put(d, t));
    let id = ids[k];
    let after = pages.insert(id, Ok(e));
    let cell = Cell { rid: Rid { page_id: id, slot_id: page_count(d) }, tuple: t };
    let p = cells_upto(pages, ids, (k + 1) as nat).len() as int;
    if n == k + 1 {
        assert forall|j: int| 0 <= j < n - 1 implies after[#[trigger] ids[j]] == pages[ids[j]] by {
            assert(ids[j] != ids[k]);
        }
        lemma_cells_same(after, pages, ids, (n - 1) as nat);
        lemma_page_cells_same(id, d, e, page_count(d) as nat);
        let here = page_cells(id, d, page_count(d) as nat);
        let c = page_count(d);
        assert(page_cells(id, e, (c + 1) as nat) == here.push(cell));
        let before = cells_upto(pages, ids, (n - 1) as nat);
        assert(before + here.push(cell) =~= (before + here).insert(p, cell));
    } else {
        lemma_insert_cells(pages, ids, k, d, t, (n - 1) as nat);
        assert(ids[n - 1] != ids[k]);
        let b = cells_upto(pages, ids, (n - 1) as nat);
        let f = pages[ids[n - 1]]->Ok_0;
        let here = page_cells(ids[n - 1], f, page_count(f) as nat);
        assert(b.insert(p, cell) + here =~= (b + here).insert(p, cell));
    }
}

/// Where an insertion goes: a page of the list with room.
pub proof fn lemma_place(
    pages: Map<u32, Result<Seq<u8>, StorageError>>,
    ids: Seq<u32>,
    len: nat,
    i: int,
) -> (k: int)
    requires
        0 <= i,
        place_for(pages, ids, len, i) is At,
        forall|j: int| 0 <= j < ids.len() ==> (pages[#[trigger] ids[j]] matches Ok(d) && page_wf(d)),
    ensures
        i <= k < ids.len(),
        place_for(pages, ids, len, i) == Place::At(ids[k]),
        pages[ids[k]] matches Ok(d) && page_wf(d) && page_fits(d, len),
    decreases ids.len() - i,
{
    let d = pages[ids[i]]->Ok_0;
    if page_room(d) >= len + 5 {
        law_fits(d, len);
        i
    } else {
        lemma_place(pages, ids, len, i + 1)
    }
}

pub proof fn lemma_no_fault(
    pages: Map<u32, Result<Seq<u8>, StorageError>>,
    ids: Seq<u32>,
    len: nat,
    i: int,
)
    requires
        0 <= i,
        forall|j: int| 0 <= j < ids.len() ==> pages[#[trigger] ids[j]] is Ok,
    ensures
        !(place_for(pages, ids, len, i) is Fault),
    decreases ids.len() - i,
{
    if i < ids.len() {
        assert(pages[ids[i]] is Ok);
        lemma_no_fault(pages, ids, len, i + 1);
    }
}

pub proof fn lemma_serialized_parts(columns: Seq<ColumnView>, row: RowView, n: nat)
    requires
        n <= row.len(),
        serialize_upto(columns, row, n) is Ok,
    ensures
        forall|i: int|
            0 <= i < n ==> {
                &&& fits(columns[i].ty, #[trigger] row[i])
                &&& value_bytes(row[i]).len() <= serialize_upto(columns, row, n)->Ok_0.len()
            },
    decreases n,
{
    if n > 0 {
        lemma_serialized_parts(columns, row, (n - 1) as nat);
    }
}

/// A row whose bytes are few is read back as it was written.
pub proof fn lemma_written_row(columns: Seq<ColumnView>, row: RowView, t: Seq<u8>, tail: Seq<u8>)
    requires
        serialized(columns, row) == Ok::<Seq<u8>, Seq<char>>(t),
        t.len() <= u16::MAX,
    ensures
        deserialized(columns, t + tail) == Ok::<RowView, Seq<char>>(row),
        t == row_bytes(row),
{
    lemma_serialized_parts(columns, row, row.len());
    assert(storable(columns, row));
    law_row_round_trip(columns, row, tail);
}

/// The page list of another table after that of `table` was set.
proof fn lemma_other_list(db: DbView, table: Seq<char>, pages: Seq<u32>, other: Seq<char>)
    requires
        other != table,
    ensures
        table_pages(tables_put(db.tables, table, pages), other) == table_pages(db.tables, other),
{
    lemma_tables_put(db.tables, table, pages, other);
}

/// Giving a table a new page keeps the tables in order.
proof fn lemma_heap_grown(db: DbView, after: DbView, table: Seq<char>, e: Seq<u8>)
    requires
        heap_ok(db),
        db.num_pages < u32::MAX,
        table_pages(db.tables, table) is Some,
        after.catalog == db.catalog,
        after.tables == tables_put(
            db.tables,
            table,
            (table_pages(db.tables, table)->0).push(db.num_pages),
        ),
        after.num_pages == db.num_pages + 1,
        after.pages == db.pages.insert(db.num_pages, Ok(e)),
        page_wf(e),
        page_body(e) == e,
    ensures
        heap_ok(after),
{
    let id = db.num_pages;
    let i0 = lemma_list(db.tables, table);
    let ids = db.tables[i0].pages;
    assert forall|i: int, k: int|
        0 <= i < after.tables.len() && 0 <= k < after.tables[i].pages.len() implies page_good(
        after,
        #[trigger] after.tables[i].pages[k],
    ) by {
        if i != i0 || k < ids.len() {
            assert(after.tables[i].pages[k] == db.tables[i].pages[k]);
            assert(page_good(db, db.tables[i].pages[k]));
        }
    }
    assert forall|i: int, k: int, j: int, l: int|
        0 <= i < after.tables.len() && 0 <= k < after.tables[i].pages.len() && 0 <= j
            < after.tables.len() && 0 <= l < after.tables[j].pages.len() && (i != j || k
            != l) implies (#[trigger] after.tables[i].pages[k]) != (
    #[trigger] after.tables[j].pages[l]) by {
        let a = i != i0 || k < ids.len();
        let b = j != i0 || l < ids.len();
        if a {
            assert(after.tables[i].pages[k] == db.tables[i].pages[k]);
            assert(page_good(db, db.tables[i].pages[k]));
        }
        if b {
            assert(after.tables[j].pages[l] == db.tables[j].pages[l]);
            assert(page_good(db, db.tables[j].pages[l]));
        }
        if a && b {
            assert(db.tables[i].pages[k] != db.tables[j].pages[l]);
        }
    }
    assert forall|i: int| 0 <= i < after.tables.len() implies (
    #[trigger] after.tables[i]).pages.len() <= after.num_pages by {
        assert(db.tables[i].pages.len() <= db.num_pages);
    }
    assert forall|i: int| 0 <= i < after.catalog.tables.len() implies table_pages(
        after.tables,
        (#[trigger] after.catalog.tables[i]).name,
    ) is Some by {
        let s = db.catalog.tables[i];
        assert(table_pages(db.tables, s.name) is Some);
        lemma_tables_put(db.tables, table, ids.push(id), s.name);
    }
}

/// The page list of a table has no page twice, and all its pages are well formed.
pub proof fn lemma_good_list(db: DbView, table: Seq<char>)
    requires
        heap_ok(db),
        table_pages(db.tables, table) is Some,
    ensures
        ({
            let ids = table_pages(db.tables, table)->0;
            &&& ids.no_duplicates()
            &&& forall|k: int| 0 <= k < ids.len() ==> page_good(db, #[trigger] ids[k])
        }),
{
    let i = lemma_list(db.tables, table);
    let ids = db.tables[i].pages;
    assert forall|k: int| 0 <= k < ids.len() implies page_good(db, #[trigger] ids[k]) by {
        assert(page_good(db, db.tables[i].pages[k]));
    }
    assert forall|k: int, l: int| 0 <= k < ids.len() && 0 <= l < ids.len() && k != l implies ids[k]
        != ids[l] by {
        assert(db.tables[i].pages[k] != db.tables[i].pages[l]);
    }
}

/// Tables share no pages.
pub proof fn lemma_lists_apart(db: DbView, table: Seq<char>, other: Seq<char>)
    requires
        heap_ok(db),
        table_pages(db.tables, table) is Some,
        table_pages(db.tables, other) is Some,
        other != table,
    ensures
        forall|k: int, l: int|
            0 <= k < (table_pages(db.tables, table)->0).len() && 0 <= l < (table_pages(
                db.tables,
                other,
            )->0).len() ==> (#[trigger] (table_pages(db.tables, table)->0)[k]) != (
            #[trigger] (table_pages(db.tables, other)->0)[l]),
{
    let i = lemma_list(db.tables, table);
    let j = lemma_list(db.tables, other);
    assert forall|k: int, l: int|
        0 <= k < db.tables[i].pages.len() && 0 <= l < db.tables[j].pages.len() implies (
    #[trigger] db.tables[i].pages[k]) != (#[trigger] db.tables[j].pages[l]) by {}
}

/// The row pointer that an INSERT gives a tuple of `len` bytes.
pub open spec fn insert_rid(db: DbView, table: Seq<char>, len: nat) -> Rid {
    match place_for(db.pages, table_pages(db.tables, table)->0, len, 0) {
        Place::At(id) => Rid { page_id: id, slot_id: page_count(db.pages[id]->Ok_0) },
        _ => Rid { page_id: db.num_pages, slot_id: 0 },
    }
}

proof fn lemma_insert_at(
    db: DbView,
    after: DbView,
    table: Seq<char>,
    t: Seq<u8>,
    k: int,
) -> (p: int)
    requires
        heap_ok(db),
        table_pages(db.tables, table) is Some,
        0 <= k < (table_pages(db.tables, table)->0).len(),
        ({
            let id = (table_pages(db.tables, table)->0)[k];
            let d = db.pages[id]->Ok_0;
            &&& page_fits(d, t.len())
            &&& page_replaced(db, after, id, page_body(page_try_put(d, t)))
        }),
    ensures
        heap_ok(after),
        0 <= p <= table_cells(db, table).len(),
        ({
            let id = (table_pages(db.tables, table)->0)[k];
            table_cells(after, table) == table_cells(db, table).insert(
                p,
                Cell {
                    rid: Rid { page_id: id, slot_id: page_count(db.pages[id]->Ok_0) },
                    tuple: t,
                },
            )
        }),
        forall|other: Seq<char>|
            other != table && table_pages(db.tables, other) is Some ==> #[trigger] table_cells(
                after,
                other,
            ) == table_cells(db, other),
{
    let ids = table_pages(db.tables, table)->0;
    lemma_good_list(db, table);
    let id = ids[k];
    assert(page_good(db, id));
    let d = db.pages[id]->Ok_0;
    lemma_put(d, t);
    lemma_heap_page(db, after, id, page_body(page_try_put(d, t)));
    lemma_insert_cells(db.pages, ids, k, d, t, ids.len());
    assert forall|other: Seq<char>|
        other != table && table_pages(db.tables, other) is Some implies #[trigger] table_cells(
        after,
        other,
    ) == table_cells(db, other) by {
        lemma_lists_apart(db, table, other);
        let theirs = table_pages(db.tables, other)->0;
        assert forall|l: int| 0 <= l < theirs.len() implies after.pages[#[trigger] theirs[l]]
            == db.pages[theirs[l]] by {
            assert(ids[k] != theirs[l]);
        }
        lemma_cells_same(after.pages, db.pages, theirs, theirs.len());
    }
    cells_upto(db.pages, ids, (k + 1) as nat).len() as int
}

proof fn lemma_insert_new(db: DbView, after: DbView, table: Seq<char>, t: Seq<u8>)
    requires
        heap_ok(db),
        db.num_pages < u32::MAX,
        table_pages(db.tables, table) is Some,
        page_fits(page_body(page_blank(db.num_pages)), t.len()),
        after.catalog == db.catalog,
        after.tables == tables_put(
            db.tables,
            table,
            (table_pages(db.tables, table)->0).push(db.num_pages),
        ),
        after.num_pages == db.num_pages + 1,
        after.pages == db.pages.insert(
            db.num_pages,
            Ok(page_body(page_try_put(page_body(page_blank(db.num_pages)), t))),
        ),
    ensures
        heap_ok(after),
        table_cells(after, table) == table_cells(db, table).push(
            Cell { rid: Rid { page_id: db.num_pages, slot_id: 0 }, tuple: t },
        ),
        forall|other: Seq<char>|
            other != table && table_pages(db.tables, other) is Some ==> #[trigger] table_cells(
                after,
                other,
            ) == table_cells(db, other),
{
    let id = db.num_pages;
    let d = page_body(page_blank(id));
    lemma_blank(id);
    lemma_put(d, t);
    let e = page_body(page_try_put(d, t));
    lemma_heap_grown(db, after, table, e);
    let ids = table_pages(db.tables, table)->0;
    let now = ids.push(id);
    lemma_good_list(db, table);
    lemma_tables_put(db.tables, table, now, table);
    assert(now =~= ids + seq![id]);
    lemma_cells_prefix(after.pages, ids, seq![id], ids.len());
    assert forall|k: int| 0 <= k < ids.len() implies after.pages[#[trigger] ids[k]]
        == db.pages[ids[k]] by {
        assert(page_good(db, ids[k]));
    }
    lemma_cells_same(after.pages, db.pages, ids, ids.len());
    let cell = Cell { rid: Rid { page_id: id, slot_id: 0 }, tuple: t };
    assert(page_cells(id, e, 0) =~= Seq::empty());
    assert(page_cells(id, e, 1) =~= seq![cell]);
    assert(table_cells(db, table) + seq![cell] =~= table_cells(db, table).push(cell));
    assert forall|other: Seq<char>|
        other != table && table_pages(db.tables, other) is Some implies #[trigger] table_cells(
        after,
        other,
    ) == table_cells(db, other) by {
        lemma_other_list(db, table, now, other);
        lemma_good_list(db, other);
        let theirs = table_pages(db.tables, other)->0;
        assert forall|l: int| 0 <= l < theirs.len() implies after.pages[#[trigger] theirs[l]]
            == db.pages[theirs[l]] by {
            assert(page_good(db, theirs[l]));
        }
        lemma_cells_same(after.pages, db.pages, theirs, theirs.len());
    }
}

/// A tuple that fits some page fits an empty one.
pub proof fn lemma_fits_blank(d: Seq<u8>, len: nat, id: u32)
    requires
        page_fits(d, len),
    ensures
        page_fits(page_body(page_blank(id)), len),
{
    law_blank(id);
    lemma_blank(id);
    law_fits(page_blank(id), len);
    law_body_reads(page_blank(id), page_body(page_blank(id)));
    assert(page_fits(page_blank(id), len) == page_fits(page_body(page_blank(id)), len));
}

/// What an INSERT that succeeds does to pages and lists: the position in the list of the page that
/// takes the tuple, or -1 for a new page.
pub proof fn lemma_insert_outcome(db: DbView, table: Seq<char>, row: RowView) -> (k: int)
    requires
        heap_ok(db),
        db.num_pages < u32::MAX,
        insert(db, table, row).1 is Ok,
    ensures
        db.catalog.get(table) is Some,
        serialized((db.catalog.get(table)->0).columns, row) is Ok,
        table_pages(db.tables, table) is Some,
        ({
            let t = serialized((db.catalog.get(table)->0).columns, row)->Ok_0;
            let ids = table_pages(db.tables, table)->0;
            let after = insert(db, table, row).0;
            &&& t.len() <= u16::MAX
            &&& after.catalog == db.catalog
            &&& 0 <= k ==> {
                let d = db.pages[ids[k]]->Ok_0;
                &&& k < ids.len()
                &&& page_fits(d, t.len())
                &&& page_replaced(db, after, ids[k], page_body(page_try_put(d, t)))
                &&& insert_rid(db, table, t.len()) == (Rid {
                    page_id: ids[k],
                    slot_id: page_count(d),
                })
            }
            &&& k < 0 ==> {
                let d = page_body(page_blank(db.num_pages));
                &&& page_fits(d, t.len())
                &&& after.tables == tables_put(db.tables, table, ids.push(db.num_pages))
                &&& after.num_pages == db.num_pages + 1
                &&& after.pages == db.pages.insert(
                    db.num_pages,
                    Ok(page_body(page_try_put(d, t))),
                )
                &&& insert_rid(db, table, t.len()) == (Rid { page_id: db.num_pages, slot_id: 0 })
            }
        }),
{
    let schema = db.catalog.get(table)->0;
    lemma_listed(db, table);
    let t = serialized(schema.columns, row)->Ok_0;
    let ids = table_pages(db.tables, table)->0;
    let after = insert(db, table, row).0;
    let begun = DbView { wal: wal_begin(db.wal), ..db };
    assert forall|j: int| 0 <= j < ids.len() implies (db.pages[#[trigger] ids[j]] matches Ok(d)
        && page_wf(d)) by {
        lemma_good_list(db, table);
        assert(page_good(db, ids[j]));
    }
    lemma_no_fault(db.pages, ids, t.len(), 0);
    if place_for(db.pages, ids, t.len(), 0) is At {
        let k = lemma_place(db.pages, ids, t.len(), 0);
        assert(insert(db, table, row) == insert_at(
            begun,
            schema,
            table,
            row,
            t,
            db.wal.next_txn,
            ids[k],
        ));
        k
    } else {
        let id = db.num_pages;
        let w = begun.wal;
        assert(insert(db, table, row) == insert_new(
            begun,
            schema,
            table,
            row,
            t,
            db.wal.next_txn,
        ));
        assert(log_takes(w, id, t.len()));
        lemma_fits_blank(page_or_blank(w.pages, id), t.len(), id);
        let d = page_body(page_blank(id));
        assert(db.pages.insert(id, Ok(d)).insert(id, Ok(page_body(page_try_put(d, t))))
            =~= db.pages.insert(id, Ok(page_body(page_try_put(d, t)))));
        -1
    }
}

/// An INSERT that succeeds adds one row to its table, at a place of its own, which reads back as
/// the row that was given; every other row, of this and of other tables, stays as it was.
pub proof fn law_insert_adds_row(db: DbView, table: Seq<char>, row: RowView) -> (p: int)
    requires
        heap_ok(db),
        db.num_pages < u32::MAX,
        insert(db, table, row).1 is Ok,
    ensures
        heap_ok(insert(db, table, row).0),
        insert(db, table, row).0.catalog == db.catalog,
        0 <= p <= table_cells(db, table).len(),
        table_cells(insert(db, table, row).0, table) == table_cells(db, table).insert(
            p,
            Cell {
                rid: insert_rid(db, table, row_bytes(row).len()),
                tuple: row_bytes(row),
            },
        ),
        deserialized((db.catalog.get(table)->0).columns, row_bytes(row)) == Ok::<
            RowView,
            Seq<char>,
        >(row),
        forall|other: Seq<char>|
            other != table && table_pages(db.tables, other) is Some ==> #[trigger] table_cells(
                insert(db, table, row).0,
                other,
            ) == table_cells(db, other),
{
    let schema = db.catalog.get(table)->0;
    lemma_listed(db, table);
    let t = serialized(schema.columns, row)->Ok_0;
    let ids = table_pages(db.tables, table)->0;
    let after = insert(db, table, row).0;
    let k = lemma_insert_outcome(db, table, row);
    lemma_written_row(schema.columns, row, t, Seq::empty());
    assert(t + Seq::<u8>::empty() =~= t);
    if 0 <= k {
        lemma_insert_at(db, after, table, t, k)
    } else {
        lemma_insert_new(db, after, table, t);
        let cells = table_cells(db, table);
        let cell = Cell { rid: Rid { page_id: db.num_pages, slot_id: 0 }, tuple: t };
        assert(cells.push(cell) =~= cells.insert(cells.len() as int, cell));
        cells.len() as int
    }
}

} // verus!
