//! When an UPDATE or a DELETE has to succeed.
use crate::engine::answers::{
    answerable, has_column, law_column_is_found, law_where, the_column, wanted,
};
use crate::engine::catalog::{
    deserialized, fits, law_row_fits, lemma_key_column, lemma_row_size, lemma_serialize_ok,
    row_bytes, value_bytes, SchemaView,
};
use crate::engine::changes::{all_rows, holds_rows, law_insert_is_selected, lemma_star_rows};
use crate::engine::contents::{
    cells_upto, law_select_reads_table, lemma_good_list, lemma_listed, page_cells, page_good,
    table_cells, Cell,
};
use crate::engine::keys::columns_apart;
use crate::engine::model::{
    assign_check, assign_upto, execute, judge, key_in_use, selected, survey_pages, survey_slots,
    sweep_of, table_pages, DbView, RowView, Sweep,
};
use crate::engine::promises::{
    consistent, fits_empty_page, key_taken, law_sweep_is_owed, lemma_in_use, lemma_insert_owed,
    row_passes,
};
use crate::engine::refusals::{
    belongs, law_assignments_are_taken_if_they_belong, law_row_is_taken_if_it_belongs, row_belongs,
};
use crate::sql::ast::{AssignmentView, ExprView, SelectView, StatementView, ValueView};
use crate::storage::error::StorageError;
use crate::storage::page::{page_count, page_get};
use vstd::prelude::*;
use vstd::utf8::encode_utf8;

verus! {

/// How many bytes a value takes in a stored row: one for its kind, eight for a number, four for the
/// length of a text and those of the text.
pub open spec fn size(v: ValueView) -> nat {
    match v {
        ValueView::Null => 1,
        ValueView::Int(_) => 9,
        ValueView::Float(_) => 9,
        ValueView::Text(s) => 5 + encode_utf8(s).len(),
    }
}

pub open spec fn row_size(row: RowView) -> nat
    decreases row.len(),
{
    if row.len() == 0 {
        0
    } else {
        row_size(row.drop_last()) + size(row.last())
    }
}

/// A stored row takes the bytes of its values.
pub proof fn law_size_of_a_row(row: RowView)
    ensures
        row_bytes(row).len() == row_size(row),
    decreases row.len(),
{
    if row.len() > 0 {
        law_size_of_a_row(row.drop_last());
        assert(value_bytes(row.last()).len() == size(row.last()));
    }
}

/// Assignments that leave the primary key alone are not refused for it.
proof fn lemma_key_left_alone(s: Sweep, row: RowView, n: nat)
    requires
        s.set matches Some(set) && n <= set.len() && (s.schema.primary_key matches Some(key)
            ==> forall|k: int| 0 <= k < set.len() ==> (#[trigger] set[k]).column != key),
    ensures
        assign_check(s, true, row, n) is Ok,
    decreases n,
{
    if n > 0 && s.schema.primary_key is Some {
        lemma_key_left_alone(s, row, (n - 1) as nat);
        let set = s.set->0;
        assert(set[n - 1].column != s.schema.primary_key->0);
    }
}

/// What is assigned belongs, so the row still does.
proof fn lemma_still_belongs(schema: SchemaView, row: RowView, set: Seq<AssignmentView>, n: nat)
    requires
        n <= set.len(),
        row.len() == schema.columns.len(),
        forall|c: int| 0 <= c < row.len() ==> fits(schema.columns[c].ty, #[trigger] row[c]),
    ensures
        assign_upto(schema, row, set, n) matches Ok(after) ==> after.len() == row.len()
            && forall|c: int| 0 <= c < row.len() ==> fits(schema.columns[c].ty, #[trigger] after[c]),
    decreases n,
{
    if n > 0 {
        lemma_still_belongs(schema, row, set, (n - 1) as nat);
        law_column_is_found(schema, set[n - 1].column);
        if let Ok(after) = assign_upto(schema, row, set, n) {
            let r = assign_upto(schema, row, set, (n - 1) as nat)->Ok_0;
            let i = schema.col(set[n - 1].column)->0;
            assert(after == r.update(i, set[n - 1].value));
            assert forall|c: int| 0 <= c < row.len() implies fits(
                schema.columns[c].ty,
                #[trigger] after[c],
            ) by {
                if c != i {
                    assert(after[c] == r[c]);
                }
            }
        }
    }
}

/// An UPDATE succeeds if each column that it assigns is there, each value belongs there, the primary
/// key is left alone, and no row that the WHERE clause asks for takes more bytes than before.
pub proof fn law_update_is_owed(
    db: DbView,
    table: Seq<char>,
    assignments: Seq<AssignmentView>,
    filter: Option<ExprView>,
)
    requires
        consistent(db),
        db.catalog.get(table) is Some,
        ({
            let schema = db.catalog.get(table)->0;
            let rows = all_rows(db, table)->Ok_0;
            &&& answerable(schema, filter, rows)
            &&& forall|k: int|
                0 <= k < assignments.len() ==> has_column(schema, (#[trigger] assignments[k]).column)
                    && belongs(
                    assignments[k].value,
                    schema.columns[the_column(schema, assignments[k].column)].ty,
                )
            &&& schema.primary_key matches Some(key) ==> forall|k: int|
                0 <= k < assignments.len() ==> (#[trigger] assignments[k]).column != key
            &&& forall|i: int|
                0 <= i < rows.len() && wanted(schema, filter)(#[trigger] rows[i]) ==> row_size(
                    assign_upto(schema, rows[i], assignments, assignments.len())->Ok_0,
                ) <= row_size(rows[i])
        }),
    ensures
        execute(db, StatementView::Update { table, assignments, filter }).1 == Ok::<
            Seq<RowView>,
            Seq<char>,
        >(Seq::empty()),
{
    let schema = db.catalog.get(table)->0;
    let rows = all_rows(db, table)->Ok_0;
    let set = assignments;
    let s = sweep_of(db, table, filter, Some(set));
    assert(all_rows(db, table) is Ok);
    law_select_reads_table(db, table, SelectView::Star);
    lemma_star_rows(schema, table_cells(db, table), rows);
    let cells = table_cells(db, table);
    assert forall|i: int| 0 <= i < rows.len() implies row_passes(s, #[trigger] rows[i]) by {
        let row = rows[i];
        if let Some(e) = filter {
            law_where(schema, row, e);
        }
        assert(selected(schema, row, filter) == Ok::<bool, Seq<char>>(wanted(schema, filter)(row)));
        if wanted(schema, filter)(row) {
            lemma_key_left_alone(s, row, set.len());
            law_assignments_are_taken_if_they_belong(schema, row, set, set.len());
            let after = assign_upto(schema, row, set, set.len())->Ok_0;
            assert(assign_upto(schema, row, set, set.len()) is Ok);
            law_row_fits(schema.columns, cells[i].tuple);
            lemma_still_belongs(schema, row, set, set.len());
            lemma_serialize_ok(schema.columns, after, after.len());
            assert(after.take(after.len() as int) =~= after);
            law_size_of_a_row(after);
            law_size_of_a_row(row);
        }
    }
    law_sweep_is_owed(db, table, filter, Some(set));
}

/// A DELETE succeeds if its WHERE clause can be answered.
pub proof fn law_delete_is_owed(db: DbView, table: Seq<char>, filter: Option<ExprView>)
    requires
        consistent(db),
        db.catalog.get(table) is Some,
        answerable(db.catalog.get(table)->0, filter, all_rows(db, table)->Ok_0),
    ensures
        execute(db, StatementView::Delete { table, filter }).1 == Ok::<Seq<RowView>, Seq<char>>(
            Seq::empty(),
        ),
{
    let schema = db.catalog.get(table)->0;
    let rows = all_rows(db, table)->Ok_0;
    let s = sweep_of(db, table, filter, None);
    assert(all_rows(db, table) is Ok);
    assert forall|i: int| 0 <= i < rows.len() implies row_passes(s, #[trigger] rows[i]) by {
        if let Some(e) = filter {
            law_where(schema, rows[i], e);
        }
    }
    law_sweep_is_owed(db, table, filter, None);
}

// The primary key.

/// Whether some of the stored rows is to be changed, or why the statement fails at one.
spec fn cells_judged(s: Sweep, cells: Seq<Cell>) -> Result<bool, Seq<char>>
    decreases cells.len(),
{
    if cells.len() == 0 {
        Ok(false)
    } else {
        match cells_judged(s, cells.drop_last()) {
            Err(e) => Err(e),
            Ok(g) => match judge(s, g, cells.last().tuple) {
                Err(e) => Err(e),
                Ok(hit) => Ok(g || hit),
            },
        }
    }
}

proof fn lemma_slots_judged(s: Sweep, before: Seq<Cell>, id: u32, d: Seq<u8>, n: nat)
    requires
        cells_judged(s, before) is Ok,
    ensures
        survey_slots(s, cells_judged(s, before)->Ok_0, d, n) == cells_judged(
            s,
            before + page_cells(id, d, n),
        ),
    decreases n,
{
    if n == 0 {
        assert(before + page_cells(id, d, 0) =~= before);
    } else {
        lemma_slots_judged(s, before, id, d, (n - 1) as nat);
        let cells = page_cells(id, d, (n - 1) as nat);
        if let Some(t) = page_get(d, n - 1) {
            let all = before + page_cells(id, d, n);
            assert(all.drop_last() =~= before + cells);
            assert(all.last().tuple == t);
        }
    }
}

proof fn lemma_pages_judged(
    pages: Map<u32, Result<Seq<u8>, StorageError>>,
    s: Sweep,
    ids: Seq<u32>,
    n: nat,
)
    requires
        n <= ids.len(),
        forall|k: int| 0 <= k < n ==> pages[#[trigger] ids[k]] is Ok,
        cells_judged(s, cells_upto(pages, ids, n)) is Ok,
    ensures
        survey_pages(pages, s, ids, n) == cells_judged(s, cells_upto(pages, ids, n)),
    decreases n,
{
    if n > 0 {
        let id = ids[n - 1];
        assert(pages[id] is Ok);
        let d = pages[id]->Ok_0;
        let before = cells_upto(pages, ids, (n - 1) as nat);
        let more = page_cells(id, d, page_count(d) as nat);
        lemma_judged_before(s, before, more);
        lemma_pages_judged(pages, s, ids, (n - 1) as nat);
        lemma_slots_judged(s, before, id, d, page_count(d) as nat);
    }
}

/// A statement that fails at none of the rows fails at none of the first.
proof fn lemma_judged_before(s: Sweep, a: Seq<Cell>, b: Seq<Cell>)
    requires
        cells_judged(s, a + b) is Ok,
    ensures
        cells_judged(s, a) is Ok,
    decreases b.len(),
{
    if b.len() == 0 {
        assert(a + b =~= a);
    } else {
        assert((a + b).drop_last() =~= a + b.drop_last());
        lemma_judged_before(s, a, b.drop_last());
    }
}

/// A primary key can be changed: an UPDATE that gives one row a key which no row has succeeds, if the
/// key belongs in its column and the row takes no more bytes than before.
pub proof fn law_key_can_be_changed(
    db: DbView,
    table: Seq<char>,
    v: ValueView,
    filter: Option<ExprView>,
)
    requires
        consistent(db),
        db.catalog.get(table) is Some,
        (db.catalog.get(table)->0).primary_key is Some,
        columns_apart((db.catalog.get(table)->0).columns),
        ({
            let schema = db.catalog.get(table)->0;
            let rows = all_rows(db, table)->Ok_0;
            let key = schema.primary_key->0;
            let c = the_column(schema, key);
            &&& answerable(schema, filter, rows)
            &&& belongs(v, schema.columns[c].ty) && !(v is Null)
            &&& !key_taken(db, table, v)
            &&& forall|i: int, j: int|
                0 <= i < j < rows.len() && wanted(schema, filter)(#[trigger] rows[i]) ==> !wanted(
                    schema,
                    filter,
                )(#[trigger] rows[j])
            &&& forall|i: int|
                0 <= i < rows.len() && wanted(schema, filter)(#[trigger] rows[i]) ==> size(v)
                    <= size(rows[i][c])
        }),
    ensures
        ({
            let assignments = seq![
                AssignmentView { column: (db.catalog.get(table)->0).primary_key->0, value: v },
            ];
            execute(db, StatementView::Update { table, assignments, filter }).1 == Ok::<
                Seq<RowView>,
                Seq<char>,
            >(Seq::empty())
        }),
{
    let schema = db.catalog.get(table)->0;
    let rows = all_rows(db, table)->Ok_0;
    let key = schema.primary_key->0;
    let set = seq![AssignmentView { column: key, value: v }];
    let s = sweep_of(db, table, filter, Some(set));
    let ids = table_pages(db.tables, table)->0;
    let cells = table_cells(db, table);
    let p = wanted(schema, filter);
    assert(all_rows(db, table) is Ok);
    lemma_listed(db, table);
    lemma_good_list(db, table);
    lemma_key_column(table, schema.columns);
    law_column_is_found(schema, key);
    let c = the_column(schema, key);
    law_select_reads_table(db, table, SelectView::Star);
    lemma_star_rows(schema, cells, rows);
    assert forall|k: int| 0 <= k < ids.len() implies db.pages[#[trigger] ids[k]] is Ok by {
        assert(page_good(db, ids[k]));
    }
    assert(schema.columns[c].name == key);
    assert(has_column(schema, key)) by {
        assert(schema.col(key) is Some);
    }
    assert(fits(schema.columns[c].ty, v));
    if key_in_use(db, schema, table, v) {
        lemma_in_use(db, table, v);
    }
    assert(!s.dups[0]);
    lemma_one_row_judged(s, cells, rows, c, v, cells.len());
    assert(cells.take(cells.len() as int) =~= cells);
    lemma_pages_judged(db.pages, s, ids, ids.len());
}

/// A row at which the key is changed to one that nobody has does not fail, if none was changed before.
proof fn lemma_one_row_judged(
    s: Sweep,
    cells: Seq<Cell>,
    rows: Seq<RowView>,
    c: int,
    v: ValueView,
    n: nat,
)
    requires
        n <= cells.len(),
        holds_rows(s.schema, cells, rows),
        answerable(s.schema, s.filter, rows),
        s.schema.primary_key matches Some(key) && s.set == Some(
            seq![AssignmentView { column: key, value: v }],
        ) && s.schema.col(key) == Some(c) && 0 <= c < s.schema.columns.len(),
        fits(s.schema.columns[c].ty, v),
        !(v is Null),
        s.dups.len() == 1,
        !s.dups[0],
        forall|i: int, j: int|
            0 <= i < j < rows.len() && wanted(s.schema, s.filter)(#[trigger] rows[i]) ==> !wanted(
                s.schema,
                s.filter,
            )(#[trigger] rows[j]),
        forall|i: int|
            0 <= i < rows.len() && wanted(s.schema, s.filter)(#[trigger] rows[i]) ==> size(v)
                <= size(rows[i][c]),
    ensures
        cells_judged(s, cells.take(n as int)) is Ok,
        cells_judged(s, cells.take(n as int))->Ok_0 ==> exists|i: int|
            0 <= i < n && wanted(s.schema, s.filter)(#[trigger] rows[i]),
    decreases n,
{
    if n > 0 {
        lemma_one_row_judged(s, cells, rows, c, v, (n - 1) as nat);
        let part = cells.take(n as int);
        assert(part.drop_last() =~= cells.take(n - 1));
        assert(part.last() == cells[n - 1]);
        let g = cells_judged(s, cells.take(n - 1))->Ok_0;
        let row = rows[n - 1];
        let t = cells[n - 1].tuple;
        assert(deserialized(s.schema.columns, t) == Ok::<RowView, Seq<char>>(row));
        if let Some(e) = s.filter {
            law_where(s.schema, row, e);
        }
        assert(selected(s.schema, row, s.filter) == Ok::<bool, Seq<char>>(
            wanted(s.schema, s.filter)(row),
        ));
        if wanted(s.schema, s.filter)(row) {
            assert(!g) by {
                if g {
                    let i = choose|i: int|
                        0 <= i < n - 1 && wanted(s.schema, s.filter)(#[trigger] rows[i]);
                    assert(!wanted(s.schema, s.filter)(rows[n - 1]));
                }
            }
            let set = s.set->0;
            let now = row.update(c, v);
            reveal_with_fuel(assign_upto, 2);
            reveal_with_fuel(assign_check, 2);
            assert(assign_check(s, false, row, 1) is Ok);
            assert(assign_upto(s.schema, row, set, 1) == Ok::<RowView, Seq<char>>(now));
            law_row_fits(s.schema.columns, t);
            assert forall|k: int| 0 <= k < now.len() implies fits(
                s.schema.columns[k].ty,
                #[trigger] now[k],
            ) by {
                assert(fits(s.schema.columns[k].ty, row[k]));
            }
            lemma_serialize_ok(s.schema.columns, now, now.len());
            assert(now.take(now.len() as int) =~= now);
            law_size_of_a_row(now);
            law_size_of_a_row(row);
            lemma_smaller(row, c, v);
            lemma_row_size(s.schema.columns, t);
            assert(judge(s, false, t) == Ok::<bool, Seq<char>>(true));
        } else {
            assert(judge(s, g, t) == Ok::<bool, Seq<char>>(false));
            if g {
                let i = choose|i: int|
                    0 <= i < n - 1 && wanted(s.schema, s.filter)(#[trigger] rows[i]);
                assert(wanted(s.schema, s.filter)(rows[i]));
            }
        }
    } else {
        assert(cells.take(0).len() == 0);
    }
}

proof fn lemma_smaller(row: RowView, c: int, v: ValueView)
    requires
        0 <= c < row.len(),
        size(v) <= size(row[c]),
    ensures
        row_size(row.update(c, v)) <= row_size(row),
    decreases row.len(),
{
    let now = row.update(c, v);
    if c == row.len() - 1 {
        assert(now.drop_last() =~= row.drop_last());
    } else {
        lemma_smaller(row.drop_last(), c, v);
        assert(now.drop_last() =~= row.drop_last().update(c, v));
    }
}

/// A row is inserted into a table without a primary key if it belongs there and fits a page; a SELECT
/// returns it together with the rows that it returned before.
pub proof fn law_insert_without_key_is_owed(db: DbView, table: Seq<char>, values: RowView) -> (p: int)
    requires
        consistent(db),
        db.num_pages < u32::MAX,
        db.catalog.get(table) is Some,
        (db.catalog.get(table)->0).primary_key is None,
        row_belongs((db.catalog.get(table)->0).columns, values),
        fits_empty_page(row_size(values)),
    ensures
        ({
            let (after, res) = execute(db, StatementView::Insert { table, values });
            let rows = all_rows(db, table)->Ok_0;
            &&& res == Ok::<Seq<RowView>, Seq<char>>(Seq::empty())
            &&& 0 <= p <= rows.len()
            &&& all_rows(after, table) == Ok::<Seq<RowView>, Seq<char>>(rows.insert(p, values))
        }),
{
    let schema = db.catalog.get(table)->0;
    law_row_is_taken_if_it_belongs(schema.columns, values);
    assert forall|k: int| 0 <= k < values.len() implies fits(
        schema.columns[k].ty,
        #[trigger] values[k],
    ) by {
        assert(belongs(values[k], schema.columns[k].ty));
    }
    lemma_serialize_ok(schema.columns, values, values.len());
    assert(values.take(values.len() as int) =~= values);
    law_size_of_a_row(values);
    assert(all_rows(db, table) is Ok);
    lemma_insert_owed(db, table, values);
    law_insert_is_selected(db, table, values)
}

} // verus!
