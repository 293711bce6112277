//! What DELETE and UPDATE do to the rows of a table, and what INSERT, DELETE and UPDATE do to what a
//! SELECT returns.
use crate::engine::catalog::{
    deserialized, lemma_position, new_schema, serialized, table_names, CatalogView, SchemaView,
};
use crate::engine::contents::{
    cell_rows, cells_upto, heap_ok, law_insert_adds_row, law_select_reads_table, lemma_blank,
    lemma_cells_same, lemma_drop, lemma_good_list, lemma_heap_page, lemma_listed, lemma_lists_apart,
    lemma_overwrite, lemma_written_row, page_cells, page_good, table_cells, Cell,
};
use crate::engine::model::{
    assign_upto, create_table, entry_names, execute, insert, judge, msg_null_key, select, selected,
    survey_pages, survey_slots, sweep, sweep_of, sweep_pages, sweep_slot, sweep_slots, table_pages,
    DbView, RowView, Sweep, Work,
};
use crate::engine::tables::lemma_tables_put;
use crate::recovery::wal::{wal_abort, wal_begin};
use crate::sql::ast::{AssignmentView, ColumnView, ExprView, Op, SelectView, StatementView};
use crate::storage::error::StorageError;
use crate::storage::page::{page_blank, page_body, page_count, page_get, page_wf, PAGE_SIZE};
use vstd::prelude::*;

verus! {

/// A stored row can be swept: it can be read, the WHERE clause applies to it, and, if it is to be
/// updated, the new row can be written over it.
pub open spec fn sweepable(s: Sweep, t: Seq<u8>) -> bool {
    match deserialized(s.schema.columns, t) {
        Err(_) => false,
        Ok(row) => match selected(s.schema, row, s.filter) {
            Err(_) => false,
            Ok(hit) => hit && s.set is Some ==> match assign_upto(
                s.schema,
                row,
                s.set->0,
                (s.set->0).len(),
            ) {
                Err(_) => false,
                Ok(new_row) => match serialized(s.schema.columns, new_row) {
                    Err(_) => false,
                    Ok(u) => u.len() <= t.len(),
                },
            },
        },
    }
}

/// A row is selected for a sweep.
pub open spec fn swept_over(s: Sweep, t: Seq<u8>) -> bool {
    selected(s.schema, deserialized(s.schema.columns, t)->Ok_0, s.filter) == Ok::<bool, Seq<char>>(
        true,
    )
}

/// The row that an UPDATE makes of a row.
pub open spec fn updated_row(s: Sweep, t: Seq<u8>) -> RowView {
    let row = deserialized(s.schema.columns, t)->Ok_0;
    assign_upto(s.schema, row, s.set->0, (s.set->0).len())->Ok_0
}

/// The bytes of a stored row after a sweep: none if it was deleted; if it was updated, those of the
/// new row over the old ones.
pub open spec fn swept_tuple(s: Sweep, t: Seq<u8>) -> Option<Seq<u8>> {
    if !swept_over(s, t) {
        Some(t)
    } else if s.set is None {
        None
    } else {
        let u = serialized(s.schema.columns, updated_row(s, t))->Ok_0;
        Some(u + t.subrange(u.len() as int, t.len() as int))
    }
}

/// Stored rows after a sweep.
pub open spec fn swept_cells(s: Sweep, cells: Seq<Cell>) -> Seq<Cell>
    decreases cells.len(),
{
    if cells.len() == 0 {
        Seq::empty()
    } else {
        let before = swept_cells(s, cells.drop_last());
        match swept_tuple(s, cells.last().tuple) {
            Some(t) => before.push(Cell { tuple: t, ..cells.last() }),
            None => before,
        }
    }
}

/// Every one of `cells` can be swept.
pub open spec fn all_sweepable(s: Sweep, cells: Seq<Cell>) -> bool {
    forall|i: int| 0 <= i < cells.len() ==> sweepable(s, (#[trigger] cells[i]).tuple)
}

proof fn lemma_swept_add(s: Sweep, a: Seq<Cell>, b: Seq<Cell>)
    ensures
        swept_cells(s, a + b) == swept_cells(s, a) + swept_cells(s, b),
    decreases b.len(),
{
    if b.len() == 0 {
        assert(a + b =~= a);
        assert(swept_cells(s, a) + Seq::<Cell>::empty() =~= swept_cells(s, a));
    } else {
        lemma_swept_add(s, a, b.drop_last());
        assert((a + b).drop_last() =~= a + b.drop_last());
        assert((a + b).last() == b.last());
        if let Some(t) = swept_tuple(s, b.last().tuple) {
            let c = Cell { tuple: t, ..b.last() };
            assert((swept_cells(s, a) + swept_cells(s, b.drop_last())).push(c) =~= swept_cells(
                s,
                a,
            ) + swept_cells(s, b.drop_last()).push(c));
        }
    }
}

/// A row that a statement does not fail at can be swept.
proof fn lemma_judged(s: Sweep, given: bool, t: Seq<u8>)
    requires
        judge(s, given, t) is Ok,
    ensures
        sweepable(s, t),
        judge(s, given, t)->Ok_0 == swept_over(s, t),
{
}

/// The rows of the first `n` slots of a page can be swept.
pub open spec fn page_sweepable(s: Sweep, d: Seq<u8>, n: nat) -> bool {
    forall|i: int|
        0 <= i < n ==> ((#[trigger] page_get(d, i)) matches Some(t) ==> sweepable(s, t))
}

pub proof fn lemma_survey_slots(s: Sweep, given: bool, d: Seq<u8>, n: nat)
    requires
        survey_slots(s, given, d, n) is Ok,
    ensures
        page_sweepable(s, d, n),
    decreases n,
{
    if n > 0 {
        lemma_survey_slots(s, given, d, (n - 1) as nat);
        let g = survey_slots(s, given, d, (n - 1) as nat)->Ok_0;
        if let Some(t) = page_get(d, n - 1) {
            lemma_judged(s, g, t);
        }
    }
}

/// A statement that does not fail surveys every one of the pages.
pub proof fn lemma_survey_pages(
    pages: Map<u32, Result<Seq<u8>, StorageError>>,
    s: Sweep,
    ids: Seq<u32>,
    n: nat,
    m: nat,
)
    requires
        n < m,
        survey_pages(pages, s, ids, m) is Ok,
    ensures
        survey_pages(pages, s, ids, n) is Ok,
        pages[ids[n as int]] is Ok,
        ({
            let d = pages[ids[n as int]]->Ok_0;
            let g = survey_pages(pages, s, ids, n)->Ok_0;
            &&& survey_slots(s, g, d, page_count(d) as nat) is Ok
            &&& survey_pages(pages, s, ids, (n + 1) as nat) == survey_slots(
                s,
                g,
                d,
                page_count(d) as nat,
            )
        }),
    decreases m,
{
    if n < m - 1 {
        lemma_survey_pages(pages, s, ids, n, (m - 1) as nat);
    }
}

/// Sweeping one slot.
pub proof fn lemma_slot(w: Work, s: Sweep, id: u32, slot: u16)
    requires
        page_wf(w.page),
        page_body(w.page) == w.page,
        page_get(w.page, slot as int) matches Some(t) ==> sweepable(s, t),
    ensures
        ({
            let e = sweep_slot(w, s, id, slot).page;
            &&& page_wf(e)
            &&& page_body(e) == e
            &&& page_count(e) == page_count(w.page)
            &&& forall|i: int| i != slot ==> #[trigger] page_get(e, i) == page_get(w.page, i)
            &&& match page_get(w.page, slot as int) {
                None => page_get(e, slot as int) is None,
                Some(t) => page_get(e, slot as int) == swept_tuple(s, t),
            }
        }),
{
    if let Some(t) = page_get(w.page, slot as int) {
        let row = deserialized(s.schema.columns, t)->Ok_0;
        if swept_over(s, t) {
            if s.set is None {
                lemma_drop(w.page, slot);
            } else {
                let u = serialized(s.schema.columns, updated_row(s, t))->Ok_0;
                lemma_overwrite(w.page, slot, u);
            }
        }
    }
}

/// Sweeping the first `n` slots of a page.
pub proof fn lemma_slots(w: Work, s: Sweep, id: u32, n: nat)
    requires
        page_wf(w.page),
        page_body(w.page) == w.page,
        n <= page_count(w.page),
        page_sweepable(s, w.page, n),
    ensures
        ({
            let e = sweep_slots(w, s, id, n).page;
            &&& page_wf(e)
            &&& page_body(e) == e
            &&& page_count(e) == page_count(w.page)
            &&& forall|i: int| n <= i ==> #[trigger] page_get(e, i) == page_get(w.page, i)
            &&& forall|i: int|
                0 <= i < n ==> match page_get(w.page, i) {
                    None => (#[trigger] page_get(e, i)) is None,
                    Some(t) => page_get(e, i) == swept_tuple(s, t),
                }
        }),
    decreases n,
{
    if n > 0 {
        lemma_slots(w, s, id, (n - 1) as nat);
        let v = sweep_slots(w, s, id, (n - 1) as nat);
        assert(page_get(v.page, n - 1) == page_get(w.page, n - 1));
        lemma_slot(v, s, id, (n - 1) as u16);
    }
}

proof fn lemma_swept_page(s: Sweep, id: u32, d: Seq<u8>, e: Seq<u8>, n: nat)
    requires
        page_sweepable(s, d, n),
        forall|i: int|
            0 <= i < n ==> match page_get(d, i) {
                None => (#[trigger] page_get(e, i)) is None,
                Some(t) => page_get(e, i) == swept_tuple(s, t),
            },
    ensures
        page_cells(id, e, n) == swept_cells(s, page_cells(id, d, n)),
        all_sweepable(s, page_cells(id, d, n)),
    decreases n,
{
    if n > 0 {
        lemma_swept_page(s, id, d, e, (n - 1) as nat);
        let i = n - 1;
        assert(page_get(e, i) == page_get(e, i));
        let before = page_cells(id, d, (n - 1) as nat);
        if let Some(t) = page_get(d, i) {
            let now = page_cells(id, d, n);
            assert(now.drop_last() =~= before);
        }
    }
}

/// Sweeping the first `n` pages of a table: the tables stay in order, pages of other tables and
/// later pages stay as they were, and the rows of the pages are swept.
pub proof fn lemma_pages(db: DbView, s: Sweep, ids: Seq<u32>, n: nat)
    requires
        heap_ok(db),
        n <= ids.len(),
        ids.no_duplicates(),
        forall|k: int| 0 <= k < ids.len() ==> page_good(db, #[trigger] ids[k]),
        survey_pages(db.pages, s, ids, ids.len()) is Ok,
    ensures
        ({
            let v = sweep_pages(db, s, ids, n);
            &&& heap_ok(v)
            &&& v.catalog == db.catalog
            &&& v.tables == db.tables
            &&& v.num_pages == db.num_pages
            &&& v.catalog_file == db.catalog_file
            &&& v.meta_files == db.meta_files
            &&& forall|k: int| 0 <= k < ids.len() ==> page_good(v, #[trigger] ids[k])
            &&& forall|id: u32|
                !ids.take(n as int).contains(id) ==> #[trigger] v.pages[id] == db.pages[id]
            &&& cells_upto(v.pages, ids, n) == swept_cells(s, cells_upto(db.pages, ids, n))
            &&& all_sweepable(s, cells_upto(db.pages, ids, n))
        }),
    decreases n,
{
    if n > 0 {
        lemma_pages(db, s, ids, (n - 1) as nat);
        let v = sweep_pages(db, s, ids, (n - 1) as nat);
        let id = ids[n - 1];
        let earlier = ids.take(n - 1);
        assert(!earlier.contains(id)) by {
            if earlier.contains(id) {
                let j = choose|j: int| 0 <= j < earlier.len() && earlier[j] == id;
                assert(ids[j] == ids[n - 1]);
            }
        }
        assert forall|x: u32| !ids.take(n as int).contains(x) implies !earlier.contains(x) && x
            != id by {
            if earlier.contains(x) {
                let j = choose|j: int| 0 <= j < earlier.len() && earlier[j] == x;
                assert(ids.take(n as int)[j] == x);
            }
            assert(ids.take(n as int)[n - 1] == id);
        }
        assert(page_good(v, id));
        let d = v.pages[id]->Ok_0;
        assert(d == db.pages[id]->Ok_0);
        let w = Work { page: d, wal: v.wal, indexes: v.indexes };
        let c = page_count(d) as nat;
        lemma_survey_pages(db.pages, s, ids, (n - 1) as nat, ids.len());
        lemma_survey_slots(s, survey_pages(db.pages, s, ids, (n - 1) as nat)->Ok_0, d, c);
        lemma_slots(w, s, id, c);
        let e = sweep_slots(w, s, id, c).page;
        let after = sweep_pages(db, s, ids, n);
        lemma_heap_page(v, after, id, e);
        assert forall|k: int| 0 <= k < ids.len() implies page_good(after, #[trigger] ids[k]) by {
            assert(page_good(v, ids[k]));
        }
        lemma_swept_page(s, id, d, e, c);
        let before = cells_upto(db.pages, ids, (n - 1) as nat);
        lemma_swept_add(s, before, page_cells(id, d, c));
        assert forall|k: int| 0 <= k < n - 1 implies after.pages[#[trigger] ids[k]]
            == v.pages[ids[k]] by {
            assert(ids[k] != ids[n - 1]);
        }
        lemma_cells_same(after.pages, v.pages, ids, (n - 1) as nat);
    }
}

/// A DELETE or UPDATE that fails changes nothing but the log, in which its transaction is aborted.
pub proof fn law_failed_sweep_changes_nothing(
    db: DbView,
    table: Seq<char>,
    filter: Option<ExprView>,
    set: Option<Seq<AssignmentView>>,
)
    requires
        sweep(db, table, filter, set).1 is Err,
    ensures
        sweep(db, table, filter, set).0 == (DbView {
            wal: if db.catalog.get(table) is Some {
                wal_abort(wal_begin(db.wal), db.wal.next_txn)
            } else {
                db.wal
            },
            ..db
        }),
{
}

/// A DELETE or UPDATE that succeeds deletes or updates the rows of its table that are selected, and
/// leaves every other row, of this and of other tables, as it was.
pub proof fn law_sweep_changes_selected(
    db: DbView,
    table: Seq<char>,
    filter: Option<ExprView>,
    set: Option<Seq<AssignmentView>>,
)
    requires
        heap_ok(db),
        sweep(db, table, filter, set).1 is Ok,
    ensures
        heap_ok(sweep(db, table, filter, set).0),
        sweep(db, table, filter, set).0.catalog == db.catalog,
        all_sweepable(sweep_of(db, table, filter, set), table_cells(db, table)),
        table_cells(sweep(db, table, filter, set).0, table) == swept_cells(
            sweep_of(db, table, filter, set),
            table_cells(db, table),
        ),
        forall|other: Seq<char>|
            other != table && table_pages(db.tables, other) is Some ==> #[trigger] table_cells(
                sweep(db, table, filter, set).0,
                other,
            ) == table_cells(db, other),
{
    lemma_listed(db, table);
    lemma_good_list(db, table);
    let ids = table_pages(db.tables, table)->0;
    let s = sweep_of(db, table, filter, set);
    let begun = DbView { wal: wal_begin(db.wal), ..db };
    assert(heap_ok(begun)) by {
        lemma_same_heap(db, begun);
    }
    assert forall|k: int| 0 <= k < ids.len() implies page_good(begun, #[trigger] ids[k]) by {
        assert(page_good(db, ids[k]));
    }
    lemma_pages(begun, s, ids, ids.len());
    let v = sweep_pages(begun, s, ids, ids.len());
    let after = sweep(db, table, filter, set).0;
    lemma_same_heap(v, after);
    assert forall|other: Seq<char>|
        other != table && table_pages(db.tables, other) is Some implies #[trigger] table_cells(
        after,
        other,
    ) == table_cells(db, other) by {
        lemma_lists_apart(db, table, other);
        let theirs = table_pages(db.tables, other)->0;
        assert(ids.take(ids.len() as int) =~= ids);
        assert forall|l: int| 0 <= l < theirs.len() implies after.pages[#[trigger] theirs[l]]
            == db.pages[theirs[l]] by {
            assert(!ids.contains(theirs[l]));
        }
        lemma_cells_same(after.pages, db.pages, theirs, theirs.len());
    }
}

/// What tables are made of does not depend on the log, the indexes and the other files.
pub proof fn lemma_same_heap(db: DbView, after: DbView)
    requires
        heap_ok(db),
        after.catalog == db.catalog,
        after.tables == db.tables,
        after.pages == db.pages,
        after.num_pages >= db.num_pages,
    ensures
        heap_ok(after),
{
    assert forall|i: int, k: int|
        0 <= i < after.tables.len() && 0 <= k < after.tables[i].pages.len() implies page_good(
        after,
        #[trigger] after.tables[i].pages[k],
    ) by {
        assert(page_good(db, db.tables[i].pages[k]));
    }
    assert forall|i: int| 0 <= i < after.tables.len() implies (
    #[trigger] after.tables[i]).pages.len() <= after.num_pages by {
        assert(db.tables[i].pages.len() <= db.num_pages);
    }
}

// What a SELECT of all rows returns.

/// The rows that are read from `cells`, in order.
pub open spec fn holds_rows(schema: SchemaView, cells: Seq<Cell>, rows: Seq<RowView>) -> bool {
    &&& rows.len() == cells.len()
    &&& forall|i: int|
        0 <= i < cells.len() ==> deserialized(schema.columns, (#[trigger] cells[i]).tuple) == Ok::<
            RowView,
            Seq<char>,
        >(rows[i])
}

pub proof fn lemma_star_rows(schema: SchemaView, cells: Seq<Cell>, rows: Seq<RowView>)
    ensures
        (cell_rows(schema, None, SelectView::Star, cells) == Ok::<Seq<RowView>, Seq<char>>(rows))
            <==> holds_rows(schema, cells, rows),
    decreases cells.len(),
{
    if cells.len() == 0 {
        if rows.len() == 0 {
            assert(rows =~= Seq::empty());
        }
    } else {
        let dl = cells.drop_last();
        if rows.len() > 0 {
            lemma_star_rows(schema, dl, rows.drop_last());
            assert(rows =~= rows.drop_last().push(rows.last()));
            if holds_rows(schema, cells, rows) {
                assert forall|i: int| 0 <= i < dl.len() implies deserialized(
                    schema.columns,
                    (#[trigger] dl[i]).tuple,
                ) == Ok::<RowView, Seq<char>>(rows.drop_last()[i]) by {
                    assert(dl[i] == cells[i]);
                }
                assert(cells[cells.len() - 1] == cells.last());
            }
        }
        if let Ok(before) = cell_rows(schema, None, SelectView::Star, dl) {
            if let Ok(row) = deserialized(schema.columns, cells.last().tuple) {
                if before.push(row) == rows {
                    assert(rows.drop_last() =~= before);
                    assert forall|i: int| 0 <= i < cells.len() implies deserialized(
                        schema.columns,
                        (#[trigger] cells[i]).tuple,
                    ) == Ok::<RowView, Seq<char>>(rows[i]) by {
                        if i < dl.len() {
                            assert(dl[i] == cells[i]);
                            assert(rows.drop_last()[i] == rows[i]);
                        }
                    }
                }
            }
        }
    }
}

/// What a SELECT of all columns and rows returns.
pub open spec fn all_rows(db: DbView, table: Seq<char>) -> Result<Seq<RowView>, Seq<char>> {
    select(db, table, SelectView::Star, None, None, None)
}

/// After an INSERT that succeeds, a SELECT of all rows returns the rows that it returned before and,
/// at one place among them, the row that was inserted. Other tables return what they returned.
pub proof fn law_insert_is_selected(db: DbView, table: Seq<char>, row: RowView) -> (p: int)
    requires
        heap_ok(db),
        db.num_pages < u32::MAX,
        insert(db, table, row).1 is Ok,
        all_rows(db, table) is Ok,
    ensures
        0 <= p <= all_rows(db, table)->Ok_0.len(),
        all_rows(insert(db, table, row).0, table) == Ok::<Seq<RowView>, Seq<char>>(
            all_rows(db, table)->Ok_0.insert(p, row),
        ),
        forall|other: Seq<char>|
            other != table && db.catalog.get(other) is Some ==> #[trigger] all_rows(
                insert(db, table, row).0,
                other,
            ) == all_rows(db, other),
{
    let after = insert(db, table, row).0;
    let schema = db.catalog.get(table)->0;
    let p = law_insert_adds_row(db, table, row);
    law_select_reads_table(db, table, SelectView::Star);
    law_select_reads_table(after, table, SelectView::Star);
    let rows = all_rows(db, table)->Ok_0;
    let cells = table_cells(db, table);
    let now = table_cells(after, table);
    lemma_star_rows(schema, cells, rows);
    assert forall|i: int| 0 <= i < now.len() implies deserialized(
        schema.columns,
        (#[trigger] now[i]).tuple,
    ) == Ok::<RowView, Seq<char>>(rows.insert(p, row)[i]) by {
        if i < p {
            assert(now[i] == cells[i]);
        } else if i > p {
            assert(now[i] == cells[i - 1]);
        }
    }
    lemma_star_rows(schema, now, rows.insert(p, row));
    assert forall|other: Seq<char>|
        other != table && db.catalog.get(other) is Some implies #[trigger] all_rows(after, other)
        == all_rows(db, other) by {
        lemma_listed(db, other);
        law_select_reads_table(db, other, SelectView::Star);
        law_select_reads_table(after, other, SelectView::Star);
        assert(table_cells(after, other) == table_cells(db, other));
    }
    p
}

/// The rows that a WHERE clause does not select.
pub open spec fn unselected(schema: SchemaView, filter: Option<ExprView>) -> spec_fn(
    RowView,
) -> bool {
    |row: RowView| selected(schema, row, filter) != Ok::<bool, Seq<char>>(true)
}

/// What an UPDATE makes of a row.
pub open spec fn assigned(
    schema: SchemaView,
    filter: Option<ExprView>,
    set: Seq<AssignmentView>,
) -> spec_fn(RowView) -> RowView {
    |row: RowView|
        if selected(schema, row, filter) == Ok::<bool, Seq<char>>(true) {
            assign_upto(schema, row, set, set.len())->Ok_0
        } else {
            row
        }
}

proof fn lemma_deleted_rows(s: Sweep, cells: Seq<Cell>, rows: Seq<RowView>)
    requires
        s.set is None,
        holds_rows(s.schema, cells, rows),
    ensures
        holds_rows(s.schema, swept_cells(s, cells), rows.filter(unselected(s.schema, s.filter))),
    decreases cells.len(),
{
    reveal(Seq::filter);
    if cells.len() > 0 {
        let dl = cells.drop_last();
        assert forall|i: int| 0 <= i < dl.len() implies deserialized(
            s.schema.columns,
            (#[trigger] dl[i]).tuple,
        ) == Ok::<RowView, Seq<char>>(rows.drop_last()[i]) by {
            assert(dl[i] == cells[i]);
        }
        lemma_deleted_rows(s, dl, rows.drop_last());
        assert(cells[cells.len() - 1] == cells.last());
        assert(deserialized(s.schema.columns, cells.last().tuple)->Ok_0 == rows.last());
        let kept = swept_cells(s, dl);
        let left = rows.drop_last().filter(unselected(s.schema, s.filter));
        if !swept_over(s, cells.last().tuple) {
            let now = kept.push(cells.last());
            assert(swept_cells(s, cells) =~= now);
            assert forall|i: int| 0 <= i < now.len() implies deserialized(
                s.schema.columns,
                (#[trigger] now[i]).tuple,
            ) == Ok::<RowView, Seq<char>>(left.push(rows.last())[i]) by {
                if i < kept.len() {
                    assert(now[i] == kept[i]);
                }
            }
        }
    }
}

/// After a DELETE that succeeds, a SELECT of all rows returns the rows that it returned before but
/// for those that the WHERE clause selects, in the same order. Other tables return what they
/// returned.
pub proof fn law_deleted_rows_are_gone(db: DbView, table: Seq<char>, filter: Option<ExprView>)
    requires
        heap_ok(db),
        sweep(db, table, filter, None).1 is Ok,
    ensures
        all_rows(db, table) is Ok,
        all_rows(sweep(db, table, filter, None).0, table) == Ok::<Seq<RowView>, Seq<char>>(
            all_rows(db, table)->Ok_0.filter(unselected(db.catalog.get(table)->0, filter)),
        ),
        forall|other: Seq<char>|
            other != table && db.catalog.get(other) is Some ==> #[trigger] all_rows(
                sweep(db, table, filter, None).0,
                other,
            ) == all_rows(db, other),
{
    let s = sweep_of(db, table, filter, None);
    let after = sweep(db, table, filter, None).0;
    law_sweep_changes_selected(db, table, filter, None);
    let cells = table_cells(db, table);
    let rows = lemma_readable(s, db, table);
    lemma_deleted_rows(s, cells, rows);
    law_select_reads_table(after, table, SelectView::Star);
    lemma_star_rows(
        s.schema,
        swept_cells(s, cells),
        rows.filter(unselected(s.schema, filter)),
    );
    lemma_others_select(db, after, table);
}

/// The rows of a table that can be swept can be selected.
proof fn lemma_readable(s: Sweep, db: DbView, table: Seq<char>) -> (rows: Seq<RowView>)
    requires
        heap_ok(db),
        db.catalog.get(table) == Some(s.schema),
        all_sweepable(s, table_cells(db, table)),
    ensures
        all_rows(db, table) == Ok::<Seq<RowView>, Seq<char>>(rows),
        holds_rows(s.schema, table_cells(db, table), rows),
{
    let cells = table_cells(db, table);
    let rows = Seq::new(
        cells.len(),
        |i: int| deserialized(s.schema.columns, cells[i].tuple)->Ok_0,
    );
    assert forall|i: int| 0 <= i < cells.len() implies deserialized(
        s.schema.columns,
        (#[trigger] cells[i]).tuple,
    ) == Ok::<RowView, Seq<char>>(rows[i]) by {
        assert(sweepable(s, cells[i].tuple));
    }
    lemma_star_rows(s.schema, cells, rows);
    law_select_reads_table(db, table, SelectView::Star);
    rows
}

/// Tables that hold the same rows return the same rows.
proof fn lemma_others_select(db: DbView, after: DbView, table: Seq<char>)
    requires
        heap_ok(db),
        heap_ok(after),
        after.catalog == db.catalog,
        forall|other: Seq<char>|
            other != table && table_pages(db.tables, other) is Some ==> #[trigger] table_cells(
                after,
                other,
            ) == table_cells(db, other),
    ensures
        forall|other: Seq<char>|
            other != table && db.catalog.get(other) is Some ==> #[trigger] all_rows(after, other)
                == all_rows(db, other),
{
    assert forall|other: Seq<char>|
        other != table && db.catalog.get(other) is Some implies #[trigger] all_rows(after, other)
        == all_rows(db, other) by {
        lemma_listed(db, other);
        law_select_reads_table(db, other, SelectView::Star);
        law_select_reads_table(after, other, SelectView::Star);
        assert(table_cells(after, other) == table_cells(db, other));
    }
}

proof fn lemma_updated_cell(s: Sweep, t: Seq<u8>)
    requires
        s.set is Some,
        sweepable(s, t),
        t.len() <= u16::MAX,
    ensures
        swept_tuple(s, t) is Some,
        deserialized(s.schema.columns, swept_tuple(s, t)->0) == Ok::<RowView, Seq<char>>(
            assigned(s.schema, s.filter, s.set->0)(deserialized(s.schema.columns, t)->Ok_0),
        ),
{
    if swept_over(s, t) {
        let u = serialized(s.schema.columns, updated_row(s, t))->Ok_0;
        lemma_written_row(
            s.schema.columns,
            updated_row(s, t),
            u,
            t.subrange(u.len() as int, t.len() as int),
        );
    }
}

/// Stored rows are short.
pub open spec fn all_short(cells: Seq<Cell>) -> bool {
    forall|i: int| 0 <= i < cells.len() ==> (#[trigger] cells[i]).tuple.len() <= u16::MAX
}

proof fn lemma_short_page(id: u32, d: Seq<u8>, n: nat)
    requires
        d.len() == PAGE_SIZE,
    ensures
        all_short(page_cells(id, d, n)),
    decreases n,
{
    if n > 0 {
        lemma_short_page(id, d, (n - 1) as nat);
    }
}

proof fn lemma_short(
    pages: Map<u32, Result<Seq<u8>, StorageError>>,
    ids: Seq<u32>,
    n: nat,
)
    requires
        n <= ids.len(),
        forall|k: int| 0 <= k < n ==> (pages[#[trigger] ids[k]]->Ok_0).len() == PAGE_SIZE,
    ensures
        all_short(cells_upto(pages, ids, n)),
    decreases n,
{
    if n > 0 {
        lemma_short(pages, ids, (n - 1) as nat);
        assert((pages[ids[n - 1]]->Ok_0).len() == PAGE_SIZE);
        let d = pages[ids[n - 1]]->Ok_0;
        lemma_short_page(ids[n - 1], d, page_count(d) as nat);
    }
}

proof fn lemma_updated_rows(s: Sweep, cells: Seq<Cell>, rows: Seq<RowView>)
    requires
        s.set is Some,
        all_sweepable(s, cells),
        all_short(cells),
        holds_rows(s.schema, cells, rows),
    ensures
        holds_rows(
            s.schema,
            swept_cells(s, cells),
            rows.map_values(assigned(s.schema, s.filter, s.set->0)),
        ),
    decreases cells.len(),
{
    let f = assigned(s.schema, s.filter, s.set->0);
    if cells.len() > 0 {
        let dl = cells.drop_last();
        assert forall|i: int| 0 <= i < dl.len() implies deserialized(
            s.schema.columns,
            (#[trigger] dl[i]).tuple,
        ) == Ok::<RowView, Seq<char>>(rows.drop_last()[i]) && sweepable(s, dl[i].tuple)
            && dl[i].tuple.len() <= u16::MAX by {
            assert(dl[i] == cells[i]);
        }
        lemma_updated_rows(s, dl, rows.drop_last());
        assert(cells[cells.len() - 1] == cells.last());
        lemma_updated_cell(s, cells.last().tuple);
        let before = swept_cells(s, dl);
        let now = swept_cells(s, cells);
        let out = rows.map_values(f);
        assert(rows.drop_last().map_values(f) =~= out.drop_last());
        assert forall|i: int| 0 <= i < now.len() implies deserialized(
            s.schema.columns,
            (#[trigger] now[i]).tuple,
        ) == Ok::<RowView, Seq<char>>(out[i]) by {
            if i < before.len() {
                assert(now[i] == before[i]);
                assert(out.drop_last()[i] == out[i]);
            }
        }
    }
}

/// After an UPDATE that succeeds, a SELECT of all rows returns the rows that it returned before, in
/// the same order, those that the WHERE clause selects with the new values assigned. Other tables
/// return what they returned.
pub proof fn law_updated_rows_are_assigned(
    db: DbView,
    table: Seq<char>,
    filter: Option<ExprView>,
    set: Seq<AssignmentView>,
)
    requires
        heap_ok(db),
        sweep(db, table, filter, Some(set)).1 is Ok,
    ensures
        all_rows(db, table) is Ok,
        all_rows(sweep(db, table, filter, Some(set)).0, table) == Ok::<Seq<RowView>, Seq<char>>(
            all_rows(db, table)->Ok_0.map_values(assigned(db.catalog.get(table)->0, filter, set)),
        ),
        forall|other: Seq<char>|
            other != table && db.catalog.get(other) is Some ==> #[trigger] all_rows(
                sweep(db, table, filter, Some(set)).0,
                other,
            ) == all_rows(db, other),
{
    let s = sweep_of(db, table, filter, Some(set));
    let after = sweep(db, table, filter, Some(set)).0;
    law_sweep_changes_selected(db, table, filter, Some(set));
    let cells = table_cells(db, table);
    let rows = lemma_readable(s, db, table);
    let ids = table_pages(db.tables, table)->0;
    lemma_listed(db, table);
    lemma_good_list(db, table);
    assert forall|k: int| 0 <= k < ids.len() implies (db.pages[#[trigger] ids[k]]->Ok_0).len()
        == PAGE_SIZE by {
        assert(page_good(db, ids[k]));
    }
    lemma_short(db.pages, ids, ids.len());
    lemma_updated_rows(s, cells, rows);
    law_select_reads_table(after, table, SelectView::Star);
    lemma_star_rows(
        s.schema,
        swept_cells(s, cells),
        rows.map_values(assigned(s.schema, filter, set)),
    );
    lemma_others_select(db, after, table);
}

// Every statement.

proof fn lemma_insert_heap(db: DbView, table: Seq<char>, row: RowView)
    requires
        heap_ok(db),
        db.num_pages < u32::MAX,
    ensures
        heap_ok(insert(db, table, row).0),
{
    let after = insert(db, table, row).0;
    if insert(db, table, row).1 is Ok {
        let p = law_insert_adds_row(db, table, row);
    } else if after.pages == db.pages {
        assert(after.tables == db.tables);
        lemma_same_heap(db, after);
    } else {
        let id = db.num_pages;
        let e = page_body(page_blank(id));
        assert(after.pages == db.pages.insert(id, Ok(e)));
        assert(after.tables == db.tables);
        lemma_blank(id);
        let grown = DbView { num_pages: after.num_pages, ..db };
        lemma_same_heap(db, grown);
        lemma_heap_page(grown, after, id, e);
    }
}

proof fn lemma_sweep_heap(
    db: DbView,
    table: Seq<char>,
    filter: Option<ExprView>,
    set: Option<Seq<AssignmentView>>,
)
    requires
        heap_ok(db),
    ensures
        heap_ok(sweep(db, table, filter, set).0),
{
    if sweep(db, table, filter, set).1 is Err {
        law_failed_sweep_changes_nothing(db, table, filter, set);
        lemma_same_heap(db, sweep(db, table, filter, set).0);
    } else {
        lemma_listed(db, table);
        lemma_good_list(db, table);
        let ids = table_pages(db.tables, table)->0;
        let s = sweep_of(db, table, filter, set);
        let begun = DbView { wal: wal_begin(db.wal), ..db };
        lemma_same_heap(db, begun);
        assert forall|k: int| 0 <= k < ids.len() implies page_good(begun, #[trigger] ids[k]) by {
            assert(page_good(db, ids[k]));
        }
        lemma_pages(begun, s, ids, ids.len());
        lemma_same_heap(sweep_pages(begun, s, ids, ids.len()), sweep(db, table, filter, set).0);
    }
}

proof fn lemma_create_heap(db: DbView, table: Seq<char>, columns: Seq<ColumnView>)
    requires
        heap_ok(db),
    ensures
        heap_ok(create_table(db, table, columns).0),
{
    let after = create_table(db, table, columns).0;
    if db.catalog.get(table) is Some {
        lemma_same_heap(db, after);
    } else {
        let schema = new_schema(table, columns);
        let none = Seq::<u32>::empty();
        lemma_position(entry_names(db.tables), table, 0);
        assert forall|i: int, k: int|
            0 <= i < after.tables.len() && 0 <= k < after.tables[i].pages.len() implies page_good(
            after,
            #[trigger] after.tables[i].pages[k],
        ) by {
            assert(after.tables[i].pages[k] == db.tables[i].pages[k]);
            assert(page_good(db, db.tables[i].pages[k]));
        }
        assert forall|i: int, k: int, j: int, l: int|
            0 <= i < after.tables.len() && 0 <= k < after.tables[i].pages.len() && 0 <= j
                < after.tables.len() && 0 <= l < after.tables[j].pages.len() && (i != j || k
                != l) implies (#[trigger] after.tables[i].pages[k]) != (
        #[trigger] after.tables[j].pages[l]) by {
            assert(db.tables[i].pages[k] != db.tables[j].pages[l]);
        }
        assert forall|i: int| 0 <= i < after.tables.len() implies (
        #[trigger] after.tables[i]).pages.len() <= after.num_pages by {
            if i < db.tables.len() {
                assert(db.tables[i].pages.len() <= db.num_pages);
            }
        }
        assert forall|i: int| 0 <= i < after.catalog.tables.len() implies {
            let s = #[trigger] after.catalog.tables[i];
            &&& s == new_schema(s.name, s.columns)
            &&& table_pages(after.tables, s.name) is Some
        } by {
            let s = after.catalog.tables[i];
            lemma_tables_put(db.tables, table, none, s.name);
            if i < db.catalog.tables.len() {
                assert(s == db.catalog.tables[i]);
            }
        }
        lemma_catalog_pushed(db.catalog, schema, after.catalog);
    }
}

/// Adding a table with a new name keeps the names apart.
proof fn lemma_catalog_pushed(catalog: CatalogView, schema: SchemaView, after: CatalogView)
    requires
        after.tables == catalog.tables.push(schema),
        catalog.distinct(),
        catalog.get(schema.name) is None,
    ensures
        after.distinct(),
{
    let names = table_names(catalog.tables);
    lemma_position(names, schema.name, 0);
    assert forall|i: int| 0 <= i < catalog.tables.len() implies (
    #[trigger] catalog.tables[i]).name != schema.name by {
        assert(names[i] == catalog.tables[i].name);
    }
}

/// Every statement, whether it succeeds or not, keeps the pages of all tables allocated, readable
/// and well formed, and listed once.
pub proof fn law_tables_stay_in_order(db: DbView, stmt: StatementView)
    requires
        heap_ok(db),
        db.num_pages < u32::MAX,
    ensures
        heap_ok(execute(db, stmt).0),
{
    match stmt {
        StatementView::CreateTable { table, columns } => lemma_create_heap(db, table, columns),
        StatementView::Insert { table, values } => lemma_insert_heap(db, table, values),
        StatementView::Select { .. } => {},
        StatementView::Delete { table, filter } => lemma_sweep_heap(db, table, filter, None),
        StatementView::Update { table, assignments, filter } => lemma_sweep_heap(
            db,
            table,
            filter,
            Some(assignments),
        ),
    }
}

// NULL.

/// A comparison with NULL selects no row, whichever side is NULL.
pub proof fn law_null_compares_with_nothing(schema: SchemaView, row: RowView, e: ExprView)
    requires
        schema.col(e.left) is Some,
        e.op != Op::IsNull,
        e.op != Op::IsNotNull,
        e.right is Null || row[schema.col(e.left)->0] is Null,
    ensures
        selected(schema, row, Some(e)) == Ok::<bool, Seq<char>>(false),
{
}

/// An INSERT with NULL as primary key is refused, and changes nothing.
pub proof fn law_null_key_is_refused(db: DbView, table: Seq<char>, row: RowView)
    requires
        db.catalog.get(table) is Some,
        (db.catalog.get(table)->0).pk_col() is Some,
        (db.catalog.get(table)->0).pk_col()->0 < row.len(),
        row[(db.catalog.get(table)->0).pk_col()->0] is Null,
    ensures
        insert(db, table, row) == (
            db,
            Err::<Seq<RowView>, Seq<char>>(
                msg_null_key((db.catalog.get(table)->0).primary_key->0),
            ),
        ),
{
}

} // verus!
