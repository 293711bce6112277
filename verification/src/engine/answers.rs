//! What statements answer, in terms of the values in the rows: which rows a WHERE clause is about,
//! which columns are returned, in which order, how many, and what is assigned.
use crate::engine::catalog::{
    column_names, deserialized, law_row_fits, lemma_key_column, lemma_position, position,
    SchemaView,
};
use crate::engine::changes::{
    all_rows, holds_rows, law_deleted_rows_are_gone, law_sweep_changes_selected,
    law_updated_rows_are_assigned, lemma_star_rows, sweepable, unselected,
};
use crate::engine::contents::{
    cell_rows, heap_ok, law_select_reads_table, lemma_good_list, lemma_listed, lemma_scan_pages,
    page_good, table_cells, Cell,
};
use crate::engine::indexed::only_keys;
use crate::engine::keys::{columns_apart, keyed};
use crate::engine::index_manager::index_has;
use crate::engine::lookups::{keys_ascend, law_index_finds_what_a_scan_finds};
use crate::engine::model::{
    assign_upto, filter_holds, found_rows, index_rids, order_column, project, project_upto, select,
    selected, sort_rows, sweep, sweep_of, table_pages, DbView, RowView,
};
use crate::engine::order::{
    all_sortable, in_order, law_limited, law_sort_keeps_rows, law_sort_orders_rows,
};
use crate::engine::promises::consistent;
use crate::engine::rebuild::key_only;
use crate::sql::ast::{AssignmentView, DataType, ExprView, Op, OrderDir, SelectView, ValueView};
use crate::sql::worth::{equal, law_values_compare, less, no_number, same_kind};
use vstd::prelude::*;

verus! {

// Columns.

/// Column `i` is the first with this name.
pub open spec fn named(schema: SchemaView, i: int, name: Seq<char>) -> bool {
    &&& 0 <= i < schema.columns.len()
    &&& schema.columns[i].name == name
    &&& forall|j: int| 0 <= j < i ==> (#[trigger] schema.columns[j]).name != name
}

/// Some column has this name.
pub open spec fn has_column(schema: SchemaView, name: Seq<char>) -> bool {
    exists|i: int| #[trigger] named(schema, i, name)
}

/// The first column with this name.
pub open spec fn the_column(schema: SchemaView, name: Seq<char>) -> int {
    choose|i: int| #[trigger] named(schema, i, name)
}

/// A column is found by its name.
pub proof fn law_column_is_found(schema: SchemaView, name: Seq<char>)
    ensures
        has_column(schema, name) ==> schema.col(name) == Some(the_column(schema, name)) && named(
            schema,
            the_column(schema, name),
            name,
        ),
        !has_column(schema, name) ==> schema.col(name) is None && forall|i: int|
            0 <= i < schema.columns.len() ==> (#[trigger] schema.columns[i]).name != name,
{
    let names = column_names(schema.columns);
    lemma_position(names, name, 0);
    match schema.col(name) {
        Some(i) => {
            assert forall|j: int| 0 <= j < i implies (#[trigger] schema.columns[j]).name != name by {
                assert(names[j] != name);
            }
            assert(names[i] == name);
            assert(named(schema, i, name));
            let k = the_column(schema, name);
            assert(named(schema, k, name));
            assert(schema.columns[i].name == name && schema.columns[k].name == name);
        },
        None => {
            assert forall|i: int| 0 <= i < schema.columns.len() implies (
            #[trigger] schema.columns[i]).name != name by {
                assert(names[i] != name);
            }
            if has_column(schema, name) {
                let k = the_column(schema, name);
                assert(schema.columns[k].name == name);
            }
        },
    }
}

// WHERE.

/// What an operator says of two values.
pub open spec fn meets(v: ValueView, op: Op, w: ValueView) -> bool {
    match op {
        Op::Eq => equal(v, w),
        Op::Ne => same_kind(v, w) && !equal(v, w),
        Op::Lt => less(v, w),
        Op::Gt => less(w, v),
        Op::Le => less(v, w) || equal(v, w),
        Op::Ge => less(w, v) || equal(v, w),
        Op::IsNull => v is Null,
        Op::IsNotNull => !(v is Null),
    }
}

/// An operator can be applied to two values: it asks for NULL only, or one of them is NULL, or both
/// are numbers, or both texts.
pub open spec fn applies(v: ValueView, op: Op, w: ValueView) -> bool {
    op is IsNull || op is IsNotNull || v is Null || w is Null || same_kind(v, w)
}

/// A WHERE clause holds of a row exactly if its column has a value of which the operator says so. It
/// cannot be evaluated if there is no such column, or the operator cannot be applied.
pub proof fn law_where(schema: SchemaView, row: RowView, e: ExprView)
    ensures
        filter_holds(schema, row, e) is Ok <==> has_column(schema, e.left) && applies(
            row[the_column(schema, e.left)],
            e.op,
            e.right,
        ),
        filter_holds(schema, row, e) matches Ok(b) ==> b == meets(
            row[the_column(schema, e.left)],
            e.op,
            e.right,
        ),
{
    law_column_is_found(schema, e.left);
    if has_column(schema, e.left) {
        let v = row[the_column(schema, e.left)];
        law_values_compare(v, e.right);
        law_values_compare(e.right, v);
    }
}

/// The rows that a WHERE clause asks for; without one, all.
pub open spec fn wanted(schema: SchemaView, filter: Option<ExprView>) -> spec_fn(RowView) -> bool {
    |row: RowView|
        filter matches Some(e) ==> meets(row[the_column(schema, e.left)], e.op, e.right)
}

/// The WHERE clause can be evaluated on every row.
pub open spec fn answerable(
    schema: SchemaView,
    filter: Option<ExprView>,
    rows: Seq<RowView>,
) -> bool {
    filter matches Some(e) ==> has_column(schema, e.left) && forall|i: int|
        0 <= i < rows.len() ==> applies(
            (#[trigger] rows[i])[the_column(schema, e.left)],
            e.op,
            e.right,
        )
}

/// The columns that are asked for exist.
pub open spec fn columns_exist(schema: SchemaView, columns: SelectView) -> bool {
    columns matches SelectView::Named(names) ==> forall|j: int|
        0 <= j < names.len() ==> has_column(schema, #[trigger] names[j])
}

/// What is returned of a row: the row, or its values in the named columns, in the order of the names.
pub open spec fn returned(schema: SchemaView, columns: SelectView) -> spec_fn(RowView) -> RowView {
    |row: RowView|
        match columns {
            SelectView::Star => row,
            SelectView::Named(names) => Seq::new(
                names.len(),
                |j: int| row[the_column(schema, names[j])],
            ),
        }
}

proof fn lemma_projected(schema: SchemaView, row: RowView, names: Seq<Seq<char>>, n: nat)
    requires
        n <= names.len(),
        forall|j: int| 0 <= j < names.len() ==> has_column(schema, #[trigger] names[j]),
    ensures
        project_upto(schema, row, names, n) == Ok::<RowView, Seq<char>>(
            Seq::new(n, |j: int| row[the_column(schema, names[j])]),
        ),
    decreases n,
{
    let all = Seq::new(n, |j: int| row[the_column(schema, names[j])]);
    if n > 0 {
        lemma_projected(schema, row, names, (n - 1) as nat);
        law_column_is_found(schema, names[n - 1]);
        assert(all =~= Seq::new(
            (n - 1) as nat,
            |j: int| row[the_column(schema, names[j])],
        ).push(row[the_column(schema, names[n - 1])]));
    } else {
        assert(all =~= Seq::empty());
    }
}

/// The values of the named columns are returned, in the order of the names.
pub proof fn law_columns_are_returned(schema: SchemaView, row: RowView, columns: SelectView)
    requires
        columns_exist(schema, columns),
    ensures
        project(schema, row, columns) == Ok::<RowView, Seq<char>>(returned(schema, columns)(row)),
{
    if let SelectView::Named(names) = columns {
        lemma_projected(schema, row, names, names.len());
    }
}

/// What stored rows contribute to a SELECT.
proof fn lemma_cells_answer(
    schema: SchemaView,
    filter: Option<ExprView>,
    columns: SelectView,
    cells: Seq<Cell>,
    rows: Seq<RowView>,
)
    requires
        holds_rows(schema, cells, rows),
        answerable(schema, filter, rows),
        columns_exist(schema, columns),
    ensures
        cell_rows(schema, filter, columns, cells) == Ok::<Seq<RowView>, Seq<char>>(
            rows.filter(wanted(schema, filter)).map_values(returned(schema, columns)),
        ),
    decreases cells.len(),
{
    let p = wanted(schema, filter);
    let f = returned(schema, columns);
    reveal(Seq::filter);
    if cells.len() == 0 {
        assert(rows.filter(p).map_values(f) =~= Seq::empty());
    } else {
        let dl = cells.drop_last();
        let rl = rows.drop_last();
        assert forall|i: int| 0 <= i < dl.len() implies deserialized(
            schema.columns,
            (#[trigger] dl[i]).tuple,
        ) == Ok::<RowView, Seq<char>>(rl[i]) by {
            assert(dl[i] == cells[i]);
        }
        if let Some(e) = filter {
            assert forall|i: int| 0 <= i < rl.len() implies applies(
                (#[trigger] rl[i])[the_column(schema, e.left)],
                e.op,
                e.right,
            ) by {
                assert(rl[i] == rows[i]);
            }
        }
        lemma_cells_answer(schema, filter, columns, dl, rl);
        let row = rows[rows.len() - 1];
        assert(cells[cells.len() - 1] == cells.last());
        assert(deserialized(schema.columns, cells.last().tuple) == Ok::<RowView, Seq<char>>(row));
        if let Some(e) = filter {
            law_where(schema, row, e);
        }
        law_columns_are_returned(schema, row, columns);
        assert(rows.last() == row);
        if p(row) {
            assert(rows.filter(p) == rl.filter(p).push(row));
            assert(rl.filter(p).push(row).map_values(f) =~= rl.filter(p).map_values(f).push(
                f(row),
            ));
        }
    }
}

/// The WHERE clause bounds a primary key of integers from below or above.
pub open spec fn by_key_range(schema: SchemaView, filter: Option<ExprView>) -> bool {
    filter matches Some(e) && schema.primary_key == Some(e.left) && has_column(schema, e.left)
        && schema.columns[the_column(schema, e.left)].ty is Int && e.right is Int && (e.op is Lt
        || e.op is Le || e.op is Gt || e.op is Ge)
}

/// A SELECT without ORDER BY and LIMIT returns, of the rows of the table, those that the WHERE clause
/// asks for, each as often as it is there, and of each the columns that are asked for. Where no
/// column with an index is compared, they come in the order of the table; where a primary key of
/// integers is bounded, all columns come in ascending order of the key.
pub proof fn law_select_returns_what_is_asked_for(
    db: DbView,
    table: Seq<char>,
    columns: SelectView,
    filter: Option<ExprView>,
)
    requires
        consistent(db),
        only_keys(db),
        db.catalog.get(table) is Some,
        columns_apart((db.catalog.get(table)->0).columns),
        columns_exist(db.catalog.get(table)->0, columns),
        answerable(db.catalog.get(table)->0, filter, all_rows(db, table)->Ok_0),
    ensures
        ({
            let schema = db.catalog.get(table)->0;
            let asked = all_rows(db, table)->Ok_0.filter(wanted(schema, filter)).map_values(
                returned(schema, columns),
            );
            let res = select(db, table, columns, filter, None, None);
            &&& res is Ok
            &&& res->Ok_0.to_multiset() == asked.to_multiset()
            &&& !(filter matches Some(e) && schema.primary_key == Some(e.left)) ==> res->Ok_0 == asked
            &&& columns is Star && by_key_range(schema, filter) ==> keys_ascend(schema, res->Ok_0)
        }),
{
    let schema = db.catalog.get(table)->0;
    let ids = table_pages(db.tables, table)->0;
    let cells = table_cells(db, table);
    let rows = all_rows(db, table)->Ok_0;
    assert(all_rows(db, table) is Ok);
    lemma_listed(db, table);
    lemma_good_list(db, table);
    law_select_reads_table(db, table, SelectView::Star);
    lemma_star_rows(schema, cells, rows);
    lemma_cells_answer(schema, filter, columns, cells, rows);
    assert forall|k: int| 0 <= k < ids.len() implies db.pages[#[trigger] ids[k]] is Ok by {
        assert(page_good(db, ids[k]));
    }
    lemma_scan_pages(db.pages, schema, filter, columns, ids, ids.len());
    law_limited(found_rows(db, schema, table, columns, filter, ids)->Ok_0, None);
    if let Some(e) = filter {
        if index_rids(db.indexes, schema, table, e) is Some {
            assert(key_only(db, table));
            assert(schema.primary_key == Some(e.left));
            law_index_finds_what_a_scan_finds(db, table, columns, e);
        }
        if by_key_range(schema, filter) {
            assert(keyed(db, table));
            law_column_is_found(schema, e.left);
            lemma_key_column(table, schema.columns);
            assert(index_has(db.indexes, table, e.left));
            assert(index_rids(db.indexes, schema, table, e) is Some);
        }
    }
}

// ORDER BY and LIMIT.

/// The values of a column, NULL apart, are all integers, all numbers, or all texts.
pub open spec fn uniform(rows: Seq<RowView>, c: int) -> bool {
    ||| forall|k: int| 0 <= k < rows.len() ==> (#[trigger] rows[k])[c] is Null || rows[k][c] is Int
    ||| forall|k: int|
        0 <= k < rows.len() ==> (#[trigger] rows[k])[c] is Null || (rows[k][c] matches ValueView::Float(
            bits,
        ) && !no_number(bits))
    ||| forall|k: int| 0 <= k < rows.len() ==> (#[trigger] rows[k])[c] is Null || rows[k][c] is Text
}

/// Rows in ascending order of a column: no value is less than one in front of it, and NULL comes
/// last.
pub open spec fn ascending(rows: Seq<RowView>, c: int) -> bool {
    forall|a: int, b: int|
        0 <= a < b < rows.len() ==> !less((#[trigger] rows[b])[c], (#[trigger] rows[a])[c]) && (
        rows[a][c] is Null ==> rows[b][c] is Null)
}

/// Rows in descending order of a column: no value is greater than one in front of it, and NULL comes
/// first.
pub open spec fn descending(rows: Seq<RowView>, c: int) -> bool {
    forall|a: int, b: int|
        0 <= a < b < rows.len() ==> !less((#[trigger] rows[a])[c], (#[trigger] rows[b])[c]) && (
        rows[b][c] is Null ==> rows[a][c] is Null)
}

/// Sorting keeps the rows, and puts them in the order that is asked for.
pub proof fn law_rows_are_sorted(rows: Seq<RowView>, c: int, dir: OrderDir)
    requires
        uniform(rows, c),
    ensures
        ({
            let sorted = sort_rows(rows, c, dir, rows.len());
            &&& sorted.to_multiset() == rows.to_multiset()
            &&& dir is Asc ==> ascending(sorted, c)
            &&& dir is Desc ==> descending(sorted, c)
        }),
{
    let sorted = sort_rows(rows, c, dir, rows.len());
    law_sort_keeps_rows(rows, c, dir);
    let ty = if forall|k: int|
        0 <= k < rows.len() ==> (#[trigger] rows[k])[c] is Null || rows[k][c] is Int {
        DataType::Int
    } else if forall|k: int|
        0 <= k < rows.len() ==> (#[trigger] rows[k])[c] is Null || rows[k][c] is Text {
        DataType::Text
    } else {
        DataType::Float
    };
    assert(all_sortable(ty, rows, c)) by {
        assert forall|k: int| 0 <= k < rows.len() implies crate::engine::order::sortable(
            ty,
            (#[trigger] rows[k])[c],
        ) by {
            if let ValueView::Float(bits) = rows[k][c] {
                crate::sql::worth::law_numbers_compare(bits, bits);
            }
        }
    }
    law_sort_orders_rows(ty, rows, c, dir);
    reveal(in_order);
    assert forall|a: int, b: int| 0 <= a < b < sorted.len() implies {
        let (x, y) = ((#[trigger] sorted[a])[c], (#[trigger] sorted[b])[c]);
        &&& dir is Asc ==> !less(y, x) && (x is Null ==> y is Null)
        &&& dir is Desc ==> !less(x, y) && (y is Null ==> x is Null)
    } by {
        let (x, y) = (sorted[a][c], sorted[b][c]);
        law_values_compare(x, y);
        law_values_compare(y, x);
        assert(crate::engine::model::row_rank(sorted[b], sorted[a], c, dir)
            != crate::sql::number::Rank::Less);
    }
}

/// The column of the result that ORDER BY names: with `*` the column of the table, otherwise the
/// first of the returned columns with that name.
pub open spec fn sort_column(schema: SchemaView, columns: SelectView, name: Seq<char>, c: int) -> bool {
    match columns {
        SelectView::Star => named(schema, c, name),
        SelectView::Named(names) => {
            &&& 0 <= c < names.len()
            &&& names[c] == name
            &&& forall|j: int| 0 <= j < c ==> #[trigger] names[j] != name
        },
    }
}

/// A SELECT with ORDER BY returns the rows that it returns without, in the order of the column that is
/// named. With LIMIT n it returns the first n of the rows that it returns without, or all of them.
pub proof fn law_select_is_sorted_and_cut(
    db: DbView,
    table: Seq<char>,
    columns: SelectView,
    filter: Option<ExprView>,
    name: Seq<char>,
    dir: OrderDir,
    c: int,
    limit: Option<u64>,
)
    requires
        db.catalog.get(table) is Some,
        select(db, table, columns, filter, None, None) is Ok,
        sort_column(db.catalog.get(table)->0, columns, name, c),
        uniform(select(db, table, columns, filter, None, None)->Ok_0, c),
    ensures
        ({
            let found = select(db, table, columns, filter, None, None)->Ok_0;
            let sorted = select(db, table, columns, filter, Some((name, dir)), None);
            let cut = select(db, table, columns, filter, Some((name, dir)), limit);
            let first = select(db, table, columns, filter, None, limit);
            &&& sorted is Ok
            &&& sorted->Ok_0.to_multiset() == found.to_multiset()
            &&& dir is Asc ==> ascending(sorted->Ok_0, c)
            &&& dir is Desc ==> descending(sorted->Ok_0, c)
            &&& cut is Ok
            &&& first is Ok
            &&& cut->Ok_0 == at_most(sorted->Ok_0, limit)
            &&& first->Ok_0 == at_most(found, limit)
        }),
{
    let schema = db.catalog.get(table)->0;
    let ids = table_pages(db.tables, table)->0;
    let found = found_rows(db, schema, table, columns, filter, ids)->Ok_0;
    law_limited(found, None);
    law_limited(found, limit);
    assert(order_column(schema, columns, name) == Ok::<int, Seq<char>>(c)) by {
        match columns {
            SelectView::Star => {
                law_column_is_found(schema, name);
                let k = the_column(schema, name);
                assert(named(schema, k, name));
                assert(schema.columns[k].name == name && schema.columns[c].name == name);
            },
            SelectView::Named(names) => {
                lemma_position(names, name, 0);
                let k = position(names, name, 0)->0;
                assert(names[k] == name && names[c] == name);
            },
        }
    }
    law_rows_are_sorted(found, c, dir);
    law_limited(sort_rows(found, c, dir, found.len()), None);
    law_limited(sort_rows(found, c, dir, found.len()), limit);
}

/// The first `limit` rows, or all if there are not more.
pub open spec fn at_most(rows: Seq<RowView>, limit: Option<u64>) -> Seq<RowView> {
    rows.take(
        if limit matches Some(n) && n < rows.len() {
            limit->0 as int
        } else {
            rows.len() as int
        },
    )
}

// Assigning.

/// Assignment `k` is the last one to this column.
pub open spec fn last_to(set: Seq<AssignmentView>, k: int, name: Seq<char>) -> bool {
    &&& 0 <= k < set.len()
    &&& set[k].column == name
    &&& forall|l: int| k < l < set.len() ==> (#[trigger] set[l]).column != name
}

/// Assignments give a column the value that is assigned to it last, and leave the other columns as
/// they were.
pub proof fn law_values_are_assigned(
    schema: SchemaView,
    row: RowView,
    set: Seq<AssignmentView>,
    name: Seq<char>,
)
    requires
        row.len() == schema.columns.len(),
        has_column(schema, name),
        assign_upto(schema, row, set, set.len()) is Ok,
    ensures
        ({
            let after = assign_upto(schema, row, set, set.len())->Ok_0;
            let c = the_column(schema, name);
            &&& after.len() == row.len()
            &&& forall|k: int| #[trigger] last_to(set, k, name) ==> after[c] == set[k].value
            &&& (forall|l: int| 0 <= l < set.len() ==> (#[trigger] set[l]).column != name)
                ==> after[c] == row[c]
        }),
    decreases set.len(),
{
    law_column_is_found(schema, name);
    lemma_assigned(schema, row, set, name, set.len());
}

proof fn lemma_assigned(
    schema: SchemaView,
    row: RowView,
    set: Seq<AssignmentView>,
    name: Seq<char>,
    n: nat,
)
    requires
        n <= set.len(),
        row.len() == schema.columns.len(),
        has_column(schema, name),
        assign_upto(schema, row, set, n) is Ok,
    ensures
        ({
            let after = assign_upto(schema, row, set, n)->Ok_0;
            let c = the_column(schema, name);
            &&& after.len() == row.len()
            &&& forall|k: int|
                0 <= k < n && (#[trigger] set[k]).column == name && (forall|l: int|
                    k < l < n ==> (#[trigger] set[l]).column != name) ==> after[c] == set[k].value
            &&& (forall|l: int| 0 <= l < n ==> (#[trigger] set[l]).column != name) ==> after[c]
                == row[c]
        }),
    decreases n,
{
    if n > 0 {
        lemma_assigned(schema, row, set, name, (n - 1) as nat);
        let a = set[n - 1];
        let c = the_column(schema, name);
        law_column_is_found(schema, name);
        law_column_is_found(schema, a.column);
        let i = the_column(schema, a.column);
        assert(schema.columns[i].name == a.column && schema.columns[c].name == name);
        assert(i == c <==> a.column == name);
    }
}

/// An UPDATE that succeeds keeps the rows of the table in their order. In those that the WHERE clause
/// asks for, each column has the value that is assigned to it last; all other values stay as they
/// were. A DELETE that succeeds takes out the rows that the WHERE clause asks for, and no others.
pub proof fn law_changes_are_those_asked_for(
    db: DbView,
    table: Seq<char>,
    filter: Option<ExprView>,
    set: Seq<AssignmentView>,
    i: int,
    name: Seq<char>,
)
    requires
        consistent(db),
        db.catalog.get(table) is Some,
        has_column(db.catalog.get(table)->0, name),
    ensures
        ({
            let schema = db.catalog.get(table)->0;
            let rows = all_rows(db, table)->Ok_0;
            let p = wanted(schema, filter);
            let c = the_column(schema, name);
            let (updated, res) = sweep(db, table, filter, Some(set));
            let now = all_rows(updated, table)->Ok_0;
            let (deleted, end) = sweep(db, table, filter, None);
            &&& res is Ok ==> now.len() == rows.len() && (0 <= i < rows.len() ==> {
                &&& now[i].len() == rows[i].len()
                &&& p(rows[i]) ==> forall|k: int| #[trigger]
                    last_to(set, k, name) ==> now[i][c] == set[k].value
                &&& !p(rows[i]) || (forall|l: int|
                    0 <= l < set.len() ==> (#[trigger] set[l]).column != name) ==> now[i][c]
                    == rows[i][c]
            })
            &&& end is Ok ==> all_rows(deleted, table) == Ok::<Seq<RowView>, Seq<char>>(
                rows.filter(|row: RowView| !p(row)),
            )
        }),
{
    let schema = db.catalog.get(table)->0;
    let rows = all_rows(db, table)->Ok_0;
    let p = wanted(schema, filter);
    assert(all_rows(db, table) is Ok);
    if sweep(db, table, filter, Some(set)).1 is Ok {
        law_updated_rows_are_assigned(db, table, filter, set);
        if 0 <= i < rows.len() {
            lemma_swept_row(db, table, filter, Some(set), i);
            if p(rows[i]) {
                law_values_are_assigned(schema, rows[i], set, name);
            }
        }
    }
    if sweep(db, table, filter, None).1 is Ok {
        law_deleted_rows_are_gone(db, table, filter);
        assert forall|k: int| 0 <= k < rows.len() implies unselected(schema, filter)(
            #[trigger] rows[k],
        ) == !p(rows[k]) by {
            lemma_swept_row(db, table, filter, None, k);
        }
        lemma_filter_alike(rows, unselected(schema, filter), |row: RowView| !p(row));
    }
}

/// What a DELETE or UPDATE that succeeds found at a row.
proof fn lemma_swept_row(
    db: DbView,
    table: Seq<char>,
    filter: Option<ExprView>,
    set: Option<Seq<AssignmentView>>,
    i: int,
)
    requires
        heap_ok(db),
        db.catalog.get(table) is Some,
        all_rows(db, table) is Ok,
        sweep(db, table, filter, set).1 is Ok,
        0 <= i < all_rows(db, table)->Ok_0.len(),
    ensures
        ({
            let schema = db.catalog.get(table)->0;
            let row = all_rows(db, table)->Ok_0[i];
            &&& row.len() == schema.columns.len()
            &&& selected(schema, row, filter) == Ok::<bool, Seq<char>>(wanted(schema, filter)(row))
            &&& set is Some && wanted(schema, filter)(row) ==> assign_upto(
                schema,
                row,
                set->0,
                (set->0).len(),
            ) is Ok
        }),
{
    let schema = db.catalog.get(table)->0;
    let cells = table_cells(db, table);
    let rows = all_rows(db, table)->Ok_0;
    law_sweep_changes_selected(db, table, filter, set);
    law_select_reads_table(db, table, SelectView::Star);
    lemma_star_rows(schema, cells, rows);
    assert(deserialized(schema.columns, cells[i].tuple) == Ok::<RowView, Seq<char>>(rows[i]));
    law_row_fits(schema.columns, cells[i].tuple);
    assert(sweepable(sweep_of(db, table, filter, set), cells[i].tuple));
    if let Some(e) = filter {
        law_where(schema, rows[i], e);
    }
}

proof fn lemma_filter_alike<A>(s: Seq<A>, p: spec_fn(A) -> bool, q: spec_fn(A) -> bool)
    requires
        forall|k: int| 0 <= k < s.len() ==> p(#[trigger] s[k]) == q(s[k]),
    ensures
        s.filter(p) == s.filter(q),
    decreases s.len(),
{
    reveal(Seq::filter);
    if s.len() > 0 {
        assert forall|k: int| 0 <= k < s.drop_last().len() implies p(
            #[trigger] s.drop_last()[k],
        ) == q(s.drop_last()[k]) by {
            assert(s.drop_last()[k] == s[k]);
        }
        lemma_filter_alike(s.drop_last(), p, q);
        assert(s.last() == s[s.len() - 1]);
    }
}

} // verus!
