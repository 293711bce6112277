//! Which rows, tables and names are refused, and that a refusal leaves things as they were.
use crate::engine::answers::{has_column, law_column_is_found, the_column};
use crate::engine::catalog::{
    first_key, fits, lemma_position, new_schema, position, serialize_upto, serialized, table_names,
    SchemaView,
};
use crate::engine::model::{
    assign_upto, create_table, execute, project, project_upto, same_value, select, DbView, RowView,
};
use crate::sql::ast::{
    AssignmentView, ColumnView, DataType, ExprView, OrderDir, SelectView, StatementView, ValueView,
};
use crate::sql::worth::{equal, law_values_compare};
use vstd::prelude::*;

verus! {

/// A value belongs in a column of this type: NULL in any, any other in one of its own type.
pub open spec fn belongs(v: ValueView, ty: DataType) -> bool {
    match v {
        ValueView::Null => true,
        ValueView::Int(_) => ty is Int,
        ValueView::Float(_) => ty is Float,
        ValueView::Text(_) => ty is Text,
    }
}

/// A row has a value for each column, and each belongs there.
pub open spec fn row_belongs(columns: Seq<ColumnView>, row: RowView) -> bool {
    row.len() == columns.len() && forall|i: int|
        0 <= i < row.len() ==> belongs(#[trigger] row[i], columns[i].ty)
}

/// A row is taken exactly if it belongs in its table.
pub proof fn law_row_is_taken_if_it_belongs(columns: Seq<ColumnView>, row: RowView)
    ensures
        serialized(columns, row) is Ok <==> row_belongs(columns, row),
{
    if row.len() == columns.len() {
        lemma_taken_upto(columns, row, row.len());
    }
}

proof fn lemma_taken_upto(columns: Seq<ColumnView>, row: RowView, n: nat)
    requires
        n <= row.len(),
        row.len() == columns.len(),
    ensures
        serialize_upto(columns, row, n) is Ok <==> forall|i: int|
            0 <= i < n ==> belongs(#[trigger] row[i], columns[i].ty),
    decreases n,
{
    if n > 0 {
        lemma_taken_upto(columns, row, (n - 1) as nat);
        assert(fits(columns[n - 1].ty, row[n - 1]) == belongs(row[n - 1], columns[n - 1].ty));
    }
}

/// Assignments are taken exactly if each is to a column of the table and its value belongs there.
pub proof fn law_assignments_are_taken_if_they_belong(
    schema: SchemaView,
    row: RowView,
    set: Seq<AssignmentView>,
    n: nat,
)
    requires
        n <= set.len(),
    ensures
        assign_upto(schema, row, set, n) is Ok <==> forall|k: int|
            0 <= k < n ==> has_column(schema, (#[trigger] set[k]).column) && belongs(
                set[k].value,
                schema.columns[the_column(schema, set[k].column)].ty,
            ),
    decreases n,
{
    if n > 0 {
        law_assignments_are_taken_if_they_belong(schema, row, set, (n - 1) as nat);
        let a = set[n - 1];
        law_column_is_found(schema, a.column);
        if has_column(schema, a.column) {
            let ty = schema.columns[the_column(schema, a.column)].ty;
            assert(fits(ty, a.value) == belongs(a.value, ty));
        }
    }
}

/// Column `k` is declared to be the primary key, and none before it from `i` on is.
pub open spec fn first_declared(columns: Seq<ColumnView>, i: int, k: int) -> bool {
    &&& i <= k < columns.len()
    &&& columns[k].primary_key
    &&& none_declared(columns, i, k)
}

/// No column from `i` on and before `k` is declared to be the primary key.
pub open spec fn none_declared(columns: Seq<ColumnView>, i: int, k: int) -> bool {
    forall|j: int| i <= j < k ==> !(#[trigger] columns[j]).primary_key
}

/// The primary key of a new table is the first column that is declared to be one, if any is.
pub proof fn law_which_column_is_the_key(name: Seq<char>, columns: Seq<ColumnView>) -> (k: int)
    ensures
        new_schema(name, columns).name == name,
        new_schema(name, columns).columns == columns,
        match new_schema(name, columns).primary_key {
            Some(key) => first_declared(columns, 0, k) && columns[k].name == key,
            None => none_declared(columns, 0, columns.len() as int),
        },
{
    lemma_first_key(columns, 0)
}

proof fn lemma_first_key(columns: Seq<ColumnView>, i: int) -> (k: int)
    requires
        0 <= i,
    ensures
        match first_key(columns, i) {
            Some(key) => first_declared(columns, i, k) && columns[k].name == key,
            None => none_declared(columns, i, columns.len() as int),
        },
    decreases columns.len() - i,
{
    if i < columns.len() && !columns[i].primary_key {
        lemma_first_key(columns, i + 1)
    } else {
        i
    }
}

/// There is a table of this name.
pub open spec fn has_table(db: DbView, name: Seq<char>) -> bool {
    exists|i: int| 0 <= i < db.catalog.tables.len() && (#[trigger] db.catalog.tables[i]).name == name
}

/// A table is found by its name: if one has it, the schema that is found has it.
pub proof fn law_table_is_found(db: DbView, name: Seq<char>)
    ensures
        db.catalog.get(name) is Some <==> has_table(db, name),
        db.catalog.get(name) matches Some(schema) ==> schema.name == name
            && db.catalog.tables.contains(schema),
{
    let names = table_names(db.catalog.tables);
    lemma_position(names, name, 0);
    if has_table(db, name) {
        let i = choose|i: int|
            0 <= i < db.catalog.tables.len() && (#[trigger] db.catalog.tables[i]).name == name;
        assert(names[i] == name);
    }
    if let Some(i) = position(names, name, 0) {
        assert(names[i] == db.catalog.tables[i].name);
    }
}

/// CREATE TABLE is refused exactly where there is a table of that name; that table and all others
/// stay. Otherwise there is one table more, with the columns that were given, and the others stay.
pub proof fn law_create_table(
    db: DbView,
    table: Seq<char>,
    columns: Seq<ColumnView>,
    other: Seq<char>,
)
    ensures
        ({
            let (after, res) = execute(db, StatementView::CreateTable { table, columns });
            &&& res is Err <==> has_table(db, table)
            &&& res is Err ==> after.catalog == db.catalog && after.tables == db.tables
                && after.pages == db.pages
            &&& res is Ok ==> {
                &&& res->Ok_0.len() == 0
                &&& after.catalog.get(table) matches Some(schema) && schema.columns == columns
                    && schema.name == table
                &&& other != table ==> after.catalog.get(other) == db.catalog.get(other)
                &&& after.catalog.tables.len() == db.catalog.tables.len() + 1
                &&& after.pages == db.pages
            }
        }),
{
    law_table_is_found(db, table);
    let after = create_table(db, table, columns).0;
    if db.catalog.get(table) is None {
        let old_names = table_names(db.catalog.tables);
        let names = table_names(after.catalog.tables);
        let n = old_names.len() as int;
        assert forall|k: int| 0 <= k < n implies #[trigger] names[k] == old_names[k] by {
            assert(after.catalog.tables[k] == db.catalog.tables[k]);
        }
        assert(names[n] == table);
        lemma_position(names, table, 0);
        lemma_position(old_names, table, 0);
        lemma_position(names, other, 0);
        lemma_position(old_names, other, 0);
        if other != table {
            if let Some(i) = position(old_names, other, 0) {
                assert(names[i] == other);
                let j = position(names, other, 0)->0;
                assert(j <= i);
                if j < i {
                    assert(old_names[j] == other);
                }
            } else if let Some(j) = position(names, other, 0) {
                assert(j < n);
                assert(old_names[j] == other);
            }
        }
    }
}

/// A statement about a table that is not there is refused, says so, and changes nothing.
pub proof fn law_missing_table_is_refused(db: DbView, stmt: StatementView)
    requires
        match stmt {
            StatementView::CreateTable { .. } => false,
            StatementView::Insert { table, .. } => !has_table(db, table),
            StatementView::Select { table, .. } => !has_table(db, table),
            StatementView::Delete { table, .. } => !has_table(db, table),
            StatementView::Update { table, .. } => !has_table(db, table),
        },
    ensures
        execute(db, stmt).1 is Err,
        execute(db, stmt).0 == db,
{
    match stmt {
        StatementView::Insert { table, .. } => law_table_is_found(db, table),
        StatementView::Select { table, .. } => law_table_is_found(db, table),
        StatementView::Delete { table, .. } => law_table_is_found(db, table),
        StatementView::Update { table, .. } => law_table_is_found(db, table),
        _ => {},
    }
}

/// A SELECT changes nothing.
pub proof fn law_select_changes_nothing(db: DbView, stmt: StatementView)
    requires
        stmt is Select,
    ensures
        execute(db, stmt).0 == db,
{
}

/// A row that does not belong in its table is refused, and nothing changes.
pub proof fn law_row_that_does_not_belong_is_refused(db: DbView, table: Seq<char>, values: RowView)
    requires
        db.catalog.get(table) is Some,
        !row_belongs((db.catalog.get(table)->0).columns, values),
    ensures
        execute(db, StatementView::Insert { table, values }).1 is Err,
        execute(db, StatementView::Insert { table, values }).0 == db,
{
    law_row_is_taken_if_it_belongs((db.catalog.get(table)->0).columns, values);
}

/// Two values count as the same key exactly if they are equal as values.
pub proof fn law_same_key(a: ValueView, b: ValueView)
    ensures
        same_value(a, b) <==> equal(a, b),
{
    law_values_compare(a, b);
}

/// To ask for a column that is not there is refused at the first row.
pub proof fn law_unknown_column_is_refused(
    schema: SchemaView,
    row: RowView,
    names: Seq<Seq<char>>,
    k: int,
)
    requires
        0 <= k < names.len(),
        !has_column(schema, names[k]),
    ensures
        project(schema, row, SelectView::Named(names)) is Err,
{
    lemma_refused_from(schema, row, names, k, names.len());
}

proof fn lemma_refused_from(
    schema: SchemaView,
    row: RowView,
    names: Seq<Seq<char>>,
    k: int,
    n: nat,
)
    requires
        0 <= k < n <= names.len(),
        !has_column(schema, names[k]),
    ensures
        project_upto(schema, row, names, n) is Err,
    decreases n,
{
    if n == k + 1 {
        law_column_is_found(schema, names[k]);
    } else {
        lemma_refused_from(schema, row, names, k, (n - 1) as nat);
    }
}

/// To sort by a column that is not there, or not asked for, is refused.
pub proof fn law_unknown_order_is_refused(
    db: DbView,
    table: Seq<char>,
    columns: SelectView,
    filter: Option<ExprView>,
    name: Seq<char>,
    dir: OrderDir,
    limit: Option<u64>,
)
    requires
        db.catalog.get(table) matches Some(schema) && match columns {
            SelectView::Star => !has_column(schema, name),
            SelectView::Named(names) => !names.contains(name),
        },
    ensures
        select(db, table, columns, filter, Some((name, dir)), limit) is Err,
{
    let schema = db.catalog.get(table)->0;
    law_column_is_found(schema, name);
    if let SelectView::Named(names) = columns {
        lemma_position(names, name, 0);
        if let Some(i) = position(names, name, 0) {
            assert(names[i] == name);
        }
    }
}

} // verus!
