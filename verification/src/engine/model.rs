//! What each statement means: the state of a database, and how statements change it and what they
//! return.
use crate::bytes::{le32, un32};
use crate::engine::catalog::{
    debug_value, deserialized, fits, len32, msg_table_exists, new_schema, position, serialized,
    CatalogView, SchemaView,
};
use crate::engine::index_manager::{
    index_create, index_delete, index_has, index_insert, index_range, index_search, IndexView,
};
use crate::index::node::{ids_bytes, Rid};
use crate::recovery::wal::{
    log_records, page_or_blank, page_try_drop, page_try_overwrite, page_try_put, recovered,
    wal_abort, wal_begin, wal_commit, wal_delete, wal_insert, wal_update, WalView,
};
use crate::sql::ast::{
    rank_values, AssignmentView, ColumnView, DataType, ExprView, Op, OrderDir, SelectView,
    StatementView, ValueView,
};
use crate::sql::number::Rank;
use crate::storage::catalog_store::{catalog_bytes, catalog_of};
use crate::storage::error::{storage_message, StorageError};
use crate::storage::page::{
    page_blank, page_body, page_count, page_fits, page_get, page_room, PAGE_SIZE,
};
use crate::text::{dec, dec_int};
use vstd::prelude::*;

verus! {

/// A row of values.
pub type RowView = Seq<ValueView>;

/// A table and the pages that hold its rows.
#[verifier::ext_equal]
pub struct TableView {
    pub name: Seq<char>,
    pub pages: Seq<u32>,
}

/// The state of a database.
#[verifier::ext_equal]
pub struct DbView {
    pub catalog: CatalogView,
    pub tables: Seq<TableView>,
    /// What reading each page gives, checksums aside.
    pub pages: Map<u32, Result<Seq<u8>, StorageError>>,
    /// How many pages have been allocated.
    pub num_pages: u32,
    pub wal: WalView,
    pub indexes: Seq<IndexView>,
    /// The bytes of the catalog file.
    pub catalog_file: Option<Seq<u8>>,
    /// The bytes of the page list file of each table.
    pub meta_files: Seq<(Seq<char>, Seq<u8>)>,
}

pub open spec fn entry_names(tables: Seq<TableView>) -> Seq<Seq<char>> {
    Seq::new(tables.len(), |i: int| tables[i].name)
}

/// The pages of a table.
pub open spec fn table_pages(tables: Seq<TableView>, name: Seq<char>) -> Option<Seq<u32>> {
    match position(entry_names(tables), name, 0) {
        Some(i) => Some(tables[i].pages),
        None => None,
    }
}

/// The page lists after that of a table became `pages`.
pub open spec fn tables_put(tables: Seq<TableView>, name: Seq<char>, pages: Seq<u32>) -> Seq<
    TableView,
> {
    match position(entry_names(tables), name, 0) {
        Some(i) => tables.update(i, TableView { name, pages }),
        None => tables.push(TableView { name, pages }),
    }
}

pub open spec fn file_names(files: Seq<(Seq<char>, Seq<u8>)>) -> Seq<Seq<char>> {
    Seq::new(files.len(), |i: int| files[i].0)
}

/// The files after the one of `name` was written.
pub open spec fn files_put(
    files: Seq<(Seq<char>, Seq<u8>)>,
    name: Seq<char>,
    bytes: Seq<u8>,
) -> Seq<(Seq<char>, Seq<u8>)> {
    match position(file_names(files), name, 0) {
        Some(i) => files.update(i, (name, bytes)),
        None => files.push((name, bytes)),
    }
}

/// The bytes of a table's page list file: the number of pages and their ids.
pub open spec fn meta_bytes(pages: Seq<u32>) -> Seq<u8> {
    le32(len32(pages.len())) + ids_bytes(pages)
}

/// The page list in the bytes of its file; a list that is cut short ends early.
pub open spec fn meta_of(buf: Seq<u8>) -> Seq<u32> {
    if buf.len() < 4 {
        Seq::empty()
    } else {
        let whole = (buf.len() - 4) / 4;
        let n = un32(buf, 0) as int;
        Seq::new(
            (if n < whole {
                n
            } else {
                whole
            }) as nat,
            |i: int| un32(buf, 4 + 4 * i),
        )
    }
}

// Messages.

pub open spec fn msg_no_table(name: Seq<char>) -> Seq<char> {
    "table '"@ + name + "' not found"@
}

pub open spec fn msg_no_column(name: Seq<char>) -> Seq<char> {
    "column '"@ + name + "' not found"@
}

pub open spec fn msg_null_key(column: Seq<char>) -> Seq<char> {
    "PRIMARY KEY column '"@ + column + "' cannot be NULL"@
}

/// How a primary key is named in a message.
pub open spec fn key_text(v: ValueView) -> Seq<char> {
    match v {
        ValueView::Int(k) => dec_int(k as int),
        ValueView::Text(t) => t,
        _ => debug_value(v),
    }
}

pub open spec fn msg_duplicate_key(column: Seq<char>, key: ValueView) -> Seq<char> {
    "duplicate primary key: "@ + column + " = "@ + key_text(key)
}

pub open spec fn msg_fetch(id: u32, e: StorageError) -> Seq<char> {
    "fetch page "@ + dec(id as nat) + ": "@ + storage_message(e)
}

pub open spec fn msg_order_column(name: Seq<char>) -> Seq<char> {
    "ORDER BY column '"@ + name + "' not found"@
}

pub open spec fn msg_order_not_selected(name: Seq<char>) -> Seq<char> {
    "ORDER BY column '"@ + name + "' not in SELECT list"@
}

pub open spec fn msg_assign(value: ValueView, column: Seq<char>) -> Seq<char> {
    "type mismatch: cannot assign "@ + debug_value(value) + " to column '"@ + column + "'"@
}

pub open spec fn debug_op(op: Op) -> Seq<char> {
    match op {
        Op::Eq => "Eq"@,
        Op::Ne => "Ne"@,
        Op::Lt => "Lt"@,
        Op::Gt => "Gt"@,
        Op::Le => "Le"@,
        Op::Ge => "Ge"@,
        Op::IsNull => "IsNull"@,
        Op::IsNotNull => "IsNotNull"@,
    }
}

pub open spec fn msg_where_type(cell: ValueView, op: Op, right: ValueView) -> Seq<char> {
    "type mismatch in WHERE: "@ + debug_value(cell) + " "@ + debug_op(op) + " "@ + debug_value(
        right,
    )
}

pub open spec fn msg_too_large() -> Seq<char> {
    "UPDATE failed: new value for row is larger than original (in-place update only supported for same-size or smaller values)"@
}

// Rows.

/// The outcome of a comparison satisfies the operator.
pub open spec fn op_holds(op: Op, r: Rank) -> bool {
    match op {
        Op::Eq => r == Rank::Equal,
        Op::Ne => r != Rank::Equal,
        Op::Lt => r == Rank::Less,
        Op::Gt => r == Rank::Greater,
        Op::Le => r != Rank::Greater,
        Op::Ge => r != Rank::Less,
        Op::IsNull => false,
        Op::IsNotNull => false,
    }
}

/// A row satisfies a WHERE clause. A comparison with NULL does not hold.
pub open spec fn filter_holds(schema: SchemaView, row: RowView, e: ExprView) -> Result<
    bool,
    Seq<char>,
> {
    match schema.col(e.left) {
        None => Err(msg_no_column(e.left)),
        Some(i) => {
            let cell = row[i];
            if e.op == Op::IsNull {
                Ok(cell is Null)
            } else if e.op == Op::IsNotNull {
                Ok(!(cell is Null))
            } else if cell is Null || e.right is Null {
                Ok(false)
            } else {
                match rank_values(cell, e.right) {
                    Some(r) => Ok(op_holds(e.op, r)),
                    None => Err(msg_where_type(cell, e.op, e.right)),
                }
            }
        },
    }
}

/// A row is selected by an optional WHERE clause.
pub open spec fn selected(schema: SchemaView, row: RowView, filter: Option<ExprView>) -> Result<
    bool,
    Seq<char>,
> {
    match filter {
        Some(e) => filter_holds(schema, row, e),
        None => Ok(true),
    }
}

/// The values of the first `n` named columns of a row.
pub open spec fn project_upto(
    schema: SchemaView,
    row: RowView,
    names: Seq<Seq<char>>,
    n: nat,
) -> Result<RowView, Seq<char>>
    decreases n,
{
    if n == 0 {
        Ok(Seq::empty())
    } else {
        match project_upto(schema, row, names, (n - 1) as nat) {
            Err(e) => Err(e),
            Ok(vs) => match schema.col(names[n - 1]) {
                None => Err(msg_no_column(names[n - 1])),
                Some(i) => Ok(vs.push(row[i])),
            },
        }
    }
}

/// The selected columns of a row.
pub open spec fn project(schema: SchemaView, row: RowView, columns: SelectView) -> Result<
    RowView,
    Seq<char>,
> {
    match columns {
        SelectView::Star => Ok(row),
        SelectView::Named(names) => project_upto(schema, row, names, names.len()),
    }
}

/// What the tuple `t` contributes to a selection.
pub open spec fn tuple_row(
    schema: SchemaView,
    filter: Option<ExprView>,
    columns: SelectView,
    t: Seq<u8>,
) -> Result<Option<RowView>, Seq<char>> {
    match deserialized(schema.columns, t) {
        Err(e) => Err(e),
        Ok(row) => match selected(schema, row, filter) {
            Err(e) => Err(e),
            Ok(false) => Ok(None),
            Ok(true) => match project(schema, row, columns) {
                Err(e) => Err(e),
                Ok(r) => Ok(Some(r)),
            },
        },
    }
}

/// What slot `i` of a page contributes to a selection.
pub open spec fn slot_row(
    schema: SchemaView,
    filter: Option<ExprView>,
    columns: SelectView,
    d: Seq<u8>,
    i: int,
) -> Result<Option<RowView>, Seq<char>> {
    match page_get(d, i) {
        None => Ok(None),
        Some(t) => tuple_row(schema, filter, columns, t),
    }
}

/// `rows` with `more` at the end, if there is one.
pub open spec fn push_some(rows: Seq<RowView>, more: Option<RowView>) -> Seq<RowView> {
    match more {
        Some(r) => rows.push(r),
        None => rows,
    }
}

/// The rows that the first `n` slots of a page contribute, after `rows`.
pub open spec fn scan_slots(
    schema: SchemaView,
    filter: Option<ExprView>,
    columns: SelectView,
    d: Seq<u8>,
    rows: Seq<RowView>,
    n: nat,
) -> Result<Seq<RowView>, Seq<char>>
    decreases n,
{
    if n == 0 {
        Ok(rows)
    } else {
        match scan_slots(schema, filter, columns, d, rows, (n - 1) as nat) {
            Err(e) => Err(e),
            Ok(rs) => match slot_row(schema, filter, columns, d, n - 1) {
                Err(e) => Err(e),
                Ok(r) => Ok(push_some(rs, r)),
            },
        }
    }
}

/// The rows that the first `n` pages of `ids` contribute.
pub open spec fn scan_pages(
    pages: Map<u32, Result<Seq<u8>, StorageError>>,
    schema: SchemaView,
    filter: Option<ExprView>,
    columns: SelectView,
    ids: Seq<u32>,
    n: nat,
) -> Result<Seq<RowView>, Seq<char>>
    decreases n,
{
    if n == 0 {
        Ok(Seq::empty())
    } else {
        match scan_pages(pages, schema, filter, columns, ids, (n - 1) as nat) {
            Err(e) => Err(e),
            Ok(rows) => match pages[ids[n - 1]] {
                Err(e) => Err(msg_fetch(ids[n - 1], e)),
                Ok(d) => scan_slots(schema, filter, columns, d, rows, page_count(d) as nat),
            },
        }
    }
}

/// The column holds integers.
pub open spec fn int_column(schema: SchemaView, name: Seq<char>) -> bool {
    schema.col(name) matches Some(i) && schema.columns[i].ty == DataType::Int
}

/// The rows that an index finds for a WHERE clause, if it can be used: there is an index on the
/// column, which holds integers, and the clause compares it with an integer, other than for
/// inequality.
pub open spec fn index_rids(
    indexes: Seq<IndexView>,
    schema: SchemaView,
    table: Seq<char>,
    e: ExprView,
) -> Option<Seq<Rid>> {
    if !index_has(indexes, table, e.left) || !int_column(schema, e.left) {
        None
    } else {
        match e.right {
            ValueView::Int(n) => match e.op {
                Op::Eq => Some(
                    match index_search(indexes, table, e.left, n) {
                        Some(rid) => seq![rid],
                        None => Seq::empty(),
                    },
                ),
                Op::Gt => Some(
                    if n == i64::MAX {
                        Seq::empty()
                    } else {
                        index_range(indexes, table, e.left, (n + 1) as i64, i64::MAX)
                    },
                ),
                Op::Ge => Some(index_range(indexes, table, e.left, n, i64::MAX)),
                Op::Lt => Some(
                    if n == i64::MIN {
                        Seq::empty()
                    } else {
                        index_range(indexes, table, e.left, i64::MIN, (n - 1) as i64)
                    },
                ),
                Op::Le => Some(index_range(indexes, table, e.left, i64::MIN, n)),
                _ => None,
            },
            _ => None,
        }
    }
}

/// The rows that the first `n` of `rids` contribute. A row pointer that leads out of the table or
/// to a deleted row contributes nothing.
pub open spec fn rid_rows(
    pages: Map<u32, Result<Seq<u8>, StorageError>>,
    schema: SchemaView,
    filter: ExprView,
    columns: SelectView,
    ids: Seq<u32>,
    rids: Seq<Rid>,
    n: nat,
) -> Result<Seq<RowView>, Seq<char>>
    decreases n,
{
    if n == 0 {
        Ok(Seq::empty())
    } else {
        match rid_rows(pages, schema, filter, columns, ids, rids, (n - 1) as nat) {
            Err(e) => Err(e),
            Ok(rows) => {
                let rid = rids[n - 1];
                if !ids.contains(rid.page_id) {
                    Ok(rows)
                } else {
                    match pages[rid.page_id] {
                        Err(e) => Err(msg_fetch(rid.page_id, e)),
                        Ok(d) => match slot_row(
                            schema,
                            Some(filter),
                            columns,
                            d,
                            rid.slot_id as int,
                        ) {
                            Err(e) => Err(e),
                            Ok(r) => Ok(push_some(rows, r)),
                        },
                    }
                }
            },
        }
    }
}

/// How two values compare for sorting: NULL comes last, and values that do not compare count as
/// ascending.
pub open spec fn sort_rank(a: ValueView, b: ValueView) -> Rank {
    match (a, b) {
        (ValueView::Null, ValueView::Null) => Rank::Equal,
        (ValueView::Null, _) => Rank::Greater,
        (_, ValueView::Null) => Rank::Less,
        _ => match rank_values(a, b) {
            Some(r) => r,
            None => Rank::Less,
        },
    }
}

/// How two rows compare by column `i`.
pub open spec fn row_rank(a: RowView, b: RowView, i: int, dir: OrderDir) -> Rank {
    let r = sort_rank(a[i], b[i]);
    match dir {
        OrderDir::Asc => r,
        OrderDir::Desc => r.flipped(),
    }
}

/// Where `row` goes among the first `n` of sorted rows: before the trailing rows that it comes
/// before.
pub open spec fn sort_place(sorted: Seq<RowView>, row: RowView, i: int, dir: OrderDir, n: nat) -> nat
    decreases n,
{
    if n == 0 {
        0
    } else if row_rank(row, sorted[n - 1], i, dir) == Rank::Less {
        sort_place(sorted, row, i, dir, (n - 1) as nat)
    } else {
        n
    }
}

/// The first `n` rows in order: each is inserted behind those that it does not come before, so
/// that rows that compare equal keep their order.
pub open spec fn sort_rows(rows: Seq<RowView>, i: int, dir: OrderDir, n: nat) -> Seq<RowView>
    decreases n,
{
    if n == 0 {
        Seq::empty()
    } else {
        let before = sort_rows(rows, i, dir, (n - 1) as nat);
        before.insert(sort_place(before, rows[n - 1], i, dir, before.len()) as int, rows[n - 1])
    }
}

/// The column of the result to sort by.
pub open spec fn order_column(schema: SchemaView, columns: SelectView, name: Seq<char>) -> Result<
    int,
    Seq<char>,
> {
    match columns {
        SelectView::Star => match schema.col(name) {
            Some(i) => Ok(i),
            None => Err(msg_order_column(name)),
        },
        SelectView::Named(names) => match position(names, name, 0) {
            Some(i) => Ok(i),
            None => Err(msg_order_not_selected(name)),
        },
    }
}

/// The first `limit` rows.
pub open spec fn limited(rows: Seq<RowView>, limit: Option<u64>) -> Seq<RowView> {
    match limit {
        Some(n) => if n < rows.len() {
            rows.take(n as int)
        } else {
            rows
        },
        None => rows,
    }
}

/// The rows that a SELECT finds, before sorting.
pub open spec fn found_rows(
    db: DbView,
    schema: SchemaView,
    table: Seq<char>,
    columns: SelectView,
    filter: Option<ExprView>,
    ids: Seq<u32>,
) -> Result<Seq<RowView>, Seq<char>> {
    match filter {
        Some(e) => match index_rids(db.indexes, schema, table, e) {
            Some(rids) => rid_rows(db.pages, schema, e, columns, ids, rids, rids.len()),
            None => scan_pages(db.pages, schema, filter, columns, ids, ids.len()),
        },
        None => scan_pages(db.pages, schema, filter, columns, ids, ids.len()),
    }
}

/// What a SELECT returns.
pub open spec fn select(
    db: DbView,
    table: Seq<char>,
    columns: SelectView,
    filter: Option<ExprView>,
    order_by: Option<(Seq<char>, OrderDir)>,
    limit: Option<u64>,
) -> Result<Seq<RowView>, Seq<char>> {
    match db.catalog.get(table) {
        None => Err(msg_no_table(table)),
        Some(schema) => match found_rows(
            db,
            schema,
            table,
            columns,
            filter,
            table_pages(db.tables, table)->0,
        ) {
            Err(e) => Err(e),
            Ok(rows) => match order_by {
                None => Ok(limited(rows, limit)),
                Some((name, dir)) => match order_column(schema, columns, name) {
                    Err(e) => Err(e),
                    Ok(i) => Ok(limited(sort_rows(rows, i, dir, rows.len()), limit)),
                },
            },
        },
    }
}

// Changing rows.

/// Adds the integers of the first `n` columns of a row to the indexes on them.
pub open spec fn index_add_row(
    indexes: Seq<IndexView>,
    table: Seq<char>,
    columns: Seq<ColumnView>,
    row: RowView,
    rid: Rid,
    n: nat,
) -> Seq<IndexView>
    decreases n,
{
    if n == 0 {
        indexes
    } else {
        let v = index_add_row(indexes, table, columns, row, rid, (n - 1) as nat);
        match row[n - 1] {
            ValueView::Int(key) => index_insert(v, table, columns[n - 1].name, key, rid),
            _ => v,
        }
    }
}

/// Removes the integers of the first `n` columns of a row from the indexes on them.
pub open spec fn index_remove_row(
    indexes: Seq<IndexView>,
    table: Seq<char>,
    columns: Seq<ColumnView>,
    row: RowView,
    n: nat,
) -> Seq<IndexView>
    decreases n,
{
    if n == 0 {
        indexes
    } else {
        let v = index_remove_row(indexes, table, columns, row, (n - 1) as nat);
        match row[n - 1] {
            ValueView::Int(key) => index_delete(v, table, columns[n - 1].name, key),
            _ => v,
        }
    }
}

/// Replaces the integers of the first `n` columns of a row in the indexes on them.
pub open spec fn index_change_row(
    indexes: Seq<IndexView>,
    table: Seq<char>,
    columns: Seq<ColumnView>,
    old_row: RowView,
    new_row: RowView,
    rid: Rid,
    n: nat,
) -> Seq<IndexView>
    decreases n,
{
    if n == 0 {
        indexes
    } else {
        let v = index_change_row(indexes, table, columns, old_row, new_row, rid, (n - 1) as nat);
        let name = columns[n - 1].name;
        let w = match old_row[n - 1] {
            ValueView::Int(key) => index_delete(v, table, name, key),
            _ => v,
        };
        match new_row[n - 1] {
            ValueView::Int(key) => index_insert(w, table, name, key, rid),
            _ => w,
        }
    }
}

/// Where an insertion goes.
pub enum Place {
    /// Into this page.
    At(u32),
    /// Into a new page.
    New,
    /// Nowhere: this page cannot be read.
    Fault(u32, StorageError),
}

/// The first page of `ids` from position `i` on with room for `len` bytes and a slot.
pub open spec fn place_for(
    pages: Map<u32, Result<Seq<u8>, StorageError>>,
    ids: Seq<u32>,
    len: nat,
    i: int,
) -> Place
    decreases ids.len() - i,
{
    if i < 0 || i >= ids.len() {
        Place::New
    } else {
        match pages[ids[i]] {
            Err(e) => Place::Fault(ids[i], e),
            Ok(d) => if page_room(d) >= len + 5 {
                Place::At(ids[i])
            } else {
                place_for(pages, ids, len, i + 1)
            },
        }
    }
}

/// The slot that a tuple takes in a page.
pub open spec fn slot_for(d: Seq<u8>, len: nat) -> u16 {
    if page_fits(d, len) {
        page_count(d)
    } else {
        0
    }
}

/// Two values are equal, as `=` compares them.
pub open spec fn same_value(a: ValueView, b: ValueView) -> bool {
    rank_values(a, b) == Some(Rank::Equal)
}

/// A stored row has a primary key that is equal to `v`.
pub open spec fn tuple_has_key(schema: SchemaView, t: Seq<u8>, v: ValueView) -> bool {
    deserialized(schema.columns, t) matches Ok(row) && same_value(row[schema.pk_col()->0], v)
}

/// Slot `i` of a page holds a row with a primary key that is equal to `v`.
pub open spec fn page_has_key(schema: SchemaView, d: Seq<u8>, i: int, v: ValueView) -> bool {
    page_get(d, i) matches Some(t) && tuple_has_key(schema, t, v)
}

/// Slot `i` of page `id` can be read and holds a row with a primary key that is equal to `v`.
pub open spec fn slot_has_key(
    pages: Map<u32, Result<Seq<u8>, StorageError>>,
    schema: SchemaView,
    id: u32,
    i: int,
    v: ValueView,
) -> bool {
    pages[id] matches Ok(d) && page_has_key(schema, d, i, v)
}

/// Some row in the pages `ids` has a primary key that is equal to `v`.
pub open spec fn key_held(
    pages: Map<u32, Result<Seq<u8>, StorageError>>,
    schema: SchemaView,
    ids: Seq<u32>,
    v: ValueView,
) -> bool {
    exists|k: int, i: int|
        0 <= k < ids.len() && #[trigger] slot_has_key(pages, schema, ids[k], i, v)
}

/// Some row of a table has a primary key that is equal to `v`: for an integer the index tells, for
/// other values the rows do.
pub open spec fn key_in_use(db: DbView, schema: SchemaView, table: Seq<char>, v: ValueView) -> bool {
    match v {
        ValueView::Int(key) => index_search(
            db.indexes,
            table,
            schema.primary_key->0,
            key,
        ) is Some,
        _ => key_held(db.pages, schema, table_pages(db.tables, table)->0, v),
    }
}

/// The primary key of `row` can be inserted: it is not NULL, and no row has it.
pub open spec fn key_check(
    db: DbView,
    schema: SchemaView,
    table: Seq<char>,
    row: RowView,
) -> Result<(), Seq<char>> {
    match schema.pk_col() {
        None => Ok(()),
        Some(i) => if i >= row.len() {
            Ok(())
        } else if row[i] is Null {
            Err(msg_null_key(schema.primary_key->0))
        } else if key_in_use(db, schema, table, row[i]) {
            Err(msg_duplicate_key(schema.primary_key->0, row[i]))
        } else {
            Ok(())
        },
    }
}

/// The database after a tuple was logged for and put into page `id`, whose bytes were `d`.
pub open spec fn put_tuple(db: DbView, txn: u32, id: u32, d: Seq<u8>, t: Seq<u8>) -> DbView {
    DbView {
        wal: wal_insert(db.wal, txn, id, t),
        pages: db.pages.insert(id, Ok(page_body(page_try_put(d, t)))),
        ..db
    }
}

/// The log takes a tuple for page `id`.
pub open spec fn log_takes(w: WalView, id: u32, len: nat) -> bool {
    page_fits(page_or_blank(w.pages, id), len)
}

/// The database after a row was put into page `id` and committed.
pub open spec fn finish_insert(
    db: DbView,
    schema: SchemaView,
    table: Seq<char>,
    row: RowView,
    txn: u32,
    rid: Rid,
) -> DbView {
    DbView {
        indexes: index_add_row(
            db.indexes,
            table,
            schema.columns,
            row,
            rid,
            schema.columns.len(),
        ),
        wal: wal_commit(db.wal, txn),
        ..db
    }
}

/// What an INSERT does and returns.
pub open spec fn insert(db: DbView, table: Seq<char>, row: RowView) -> (
    DbView,
    Result<Seq<RowView>, Seq<char>>,
) {
    match db.catalog.get(table) {
        None => (db, Err(msg_no_table(table))),
        Some(schema) => match key_check(db, schema, table, row) {
            Err(e) => (db, Err(e)),
            Ok(_) => match serialized(schema.columns, row) {
                Err(e) => (db, Err(e)),
                Ok(t) => {
                    let txn = db.wal.next_txn;
                    let begun = DbView { wal: wal_begin(db.wal), ..db };
                    let ids = table_pages(db.tables, table)->0;
                    match place_for(db.pages, ids, t.len(), 0) {
                        Place::Fault(id, e) => (begun, Err(msg_fetch(id, e))),
                        Place::At(id) => insert_at(begun, schema, table, row, t, txn, id),
                        Place::New => insert_new(begun, schema, table, row, t, txn),
                    }
                },
            },
        },
    }
}

/// An insertion into a page of the table.
pub open spec fn insert_at(
    db: DbView,
    schema: SchemaView,
    table: Seq<char>,
    row: RowView,
    t: Seq<u8>,
    txn: u32,
    id: u32,
) -> (DbView, Result<Seq<RowView>, Seq<char>>) {
    let d = db.pages[id]->Ok_0;
    if log_takes(db.wal, id, t.len()) {
        let put = put_tuple(db, txn, id, d, t);
        let rid = Rid { page_id: id, slot_id: slot_for(d, t.len()) };
        (finish_insert(put, schema, table, row, txn, rid), Ok(Seq::empty()))
    } else {
        (
            DbView { wal: wal_insert(db.wal, txn, id, t), ..db },
            Err("wal insert: "@ + storage_message(StorageError::PageFull)),
        )
    }
}

/// An insertion into a new page, which the table gets.
pub open spec fn insert_new(
    db: DbView,
    schema: SchemaView,
    table: Seq<char>,
    row: RowView,
    t: Seq<u8>,
    txn: u32,
) -> (DbView, Result<Seq<RowView>, Seq<char>>) {
    let id = db.num_pages;
    let d = page_body(page_blank(id));
    let grown = DbView {
        num_pages: (id + 1) as u32,
        pages: db.pages.insert(id, Ok(d)),
        ..db
    };
    if log_takes(db.wal, id, t.len()) {
        let put = put_tuple(grown, txn, id, d, t);
        let rid = Rid { page_id: id, slot_id: slot_for(d, t.len()) };
        let ids = (table_pages(db.tables, table)->0).push(id);
        let listed = DbView {
            tables: tables_put(put.tables, table, ids),
            meta_files: files_put(put.meta_files, table, meta_bytes(ids)),
            ..put
        };
        (finish_insert(listed, schema, table, row, txn, rid), Ok(Seq::empty()))
    } else {
        (
            DbView { wal: wal_insert(grown.wal, txn, id, t), ..grown },
            Err("wal insert new page: "@ + storage_message(StorageError::PageFull)),
        )
    }
}

/// What a statement that goes through a page works on.
#[verifier::ext_equal]
pub struct Work {
    pub page: Seq<u8>,
    pub wal: WalView,
    pub indexes: Seq<IndexView>,
}

/// A statement that goes through the rows of a table: which table, which rows, which transaction,
/// and, for an UPDATE, what to assign, and which of the assignments are of a primary key that some
/// row had when the statement started.
#[verifier::ext_equal]
pub struct Sweep {
    pub schema: SchemaView,
    pub table: Seq<char>,
    pub filter: Option<ExprView>,
    pub txn: u32,
    pub set: Option<Seq<AssignmentView>>,
    pub dups: Seq<bool>,
}

/// The last of the first `n` values that are assigned to a column.
pub open spec fn last_assigned(set: Seq<AssignmentView>, column: Seq<char>, n: nat) -> Option<
    ValueView,
>
    decreases n,
{
    if n == 0 {
        None
    } else if set[n - 1].column == column {
        Some(set[n - 1].value)
    } else {
        last_assigned(set, column, (n - 1) as nat)
    }
}

/// Assignment `k` would give a row a primary key that another row has: one that some row had when
/// the statement started, or, if the statement changed a row before, the one that it gave that row.
pub open spec fn assigns_duplicate(s: Sweep, given: bool, row: RowView, k: int) -> bool {
    let set = s.set->0;
    let v = set[k].value;
    &&& !same_value(row[s.schema.pk_col()->0], v)
    &&& s.dups[k] || given && same_value(
        last_assigned(set, s.schema.primary_key->0, set.len())->0,
        v,
    )
}

/// The first `n` assignments leave the primary key of a row neither NULL nor one that another row
/// has.
pub open spec fn assign_check(s: Sweep, given: bool, row: RowView, n: nat) -> Result<
    (),
    Seq<char>,
>
    decreases n,
{
    if n == 0 || s.schema.primary_key is None {
        Ok(())
    } else {
        match assign_check(s, given, row, (n - 1) as nat) {
            Err(e) => Err(e),
            Ok(_) => {
                let key_column = s.schema.primary_key->0;
                let a = (s.set->0)[n - 1];
                if a.column != key_column {
                    Ok(())
                } else if a.value is Null {
                    Err(msg_null_key(key_column))
                } else if assigns_duplicate(s, given, row, n - 1) {
                    Err(msg_duplicate_key(key_column, a.value))
                } else {
                    Ok(())
                }
            },
        }
    }
}

/// A row after the first `n` assignments.
pub open spec fn assign_upto(schema: SchemaView, row: RowView, set: Seq<AssignmentView>, n: nat) -> Result<
    RowView,
    Seq<char>,
>
    decreases n,
{
    if n == 0 {
        Ok(row)
    } else {
        match assign_upto(schema, row, set, (n - 1) as nat) {
            Err(e) => Err(e),
            Ok(r) => {
                let a = set[n - 1];
                match schema.col(a.column) {
                    None => Err(msg_no_column(a.column)),
                    Some(i) => if fits(schema.columns[i].ty, a.value) {
                        Ok(r.update(i, a.value))
                    } else {
                        Err(msg_assign(a.value, a.column))
                    },
                }
            },
        }
    }
}

/// Whether a stored row is to be deleted or updated, or why the statement fails at it. `given` tells
/// that the statement changes a row before this one.
pub open spec fn judge(s: Sweep, given: bool, t: Seq<u8>) -> Result<bool, Seq<char>> {
    match deserialized(s.schema.columns, t) {
        Err(e) => Err(e),
        Ok(row) => match selected(s.schema, row, s.filter) {
            Err(e) => Err(e),
            Ok(false) => Ok(false),
            Ok(true) => match s.set {
                None => Ok(true),
                Some(set) => match assign_check(s, given, row, set.len()) {
                    Err(e) => Err(e),
                    Ok(_) => match assign_upto(s.schema, row, set, set.len()) {
                        Err(e) => Err(e),
                        Ok(new_row) => match serialized(s.schema.columns, new_row) {
                            Err(e) => Err(e),
                            Ok(u) => if u.len() <= t.len() {
                                Ok(true)
                            } else {
                                Err(msg_too_large())
                            },
                        },
                    },
                },
            },
        },
    }
}

/// Whether some row in the first `n` slots of a page, or one before them, is to be changed, or why
/// the statement fails.
pub open spec fn survey_slots(s: Sweep, given: bool, d: Seq<u8>, n: nat) -> Result<bool, Seq<char>>
    decreases n,
{
    if n == 0 {
        Ok(given)
    } else {
        match survey_slots(s, given, d, (n - 1) as nat) {
            Err(e) => Err(e),
            Ok(g) => match page_get(d, n - 1) {
                None => Ok(g),
                Some(t) => match judge(s, g, t) {
                    Err(e) => Err(e),
                    Ok(hit) => Ok(g || hit),
                },
            },
        }
    }
}

/// Whether some row in the first `n` pages of `ids` is to be changed, or why the statement fails.
pub open spec fn survey_pages(
    pages: Map<u32, Result<Seq<u8>, StorageError>>,
    s: Sweep,
    ids: Seq<u32>,
    n: nat,
) -> Result<bool, Seq<char>>
    decreases n,
{
    if n == 0 {
        Ok(false)
    } else {
        match survey_pages(pages, s, ids, (n - 1) as nat) {
            Err(e) => Err(e),
            Ok(g) => match pages[ids[n - 1]] {
                Err(e) => Err(msg_fetch(ids[n - 1], e)),
                Ok(d) => survey_slots(s, g, d, page_count(d) as nat),
            },
        }
    }
}

/// What becomes of a stored row.
pub enum Change {
    Keep,
    /// It is deleted; this is the row.
    Drop(RowView),
    /// It is updated: the row, the new row, and its bytes.
    Write(RowView, RowView, Seq<u8>),
}

/// What a DELETE or UPDATE makes of a stored row.
pub open spec fn change_of(s: Sweep, t: Seq<u8>) -> Change {
    match deserialized(s.schema.columns, t) {
        Err(_) => Change::Keep,
        Ok(row) => if selected(s.schema, row, s.filter) != Ok::<bool, Seq<char>>(true) {
            Change::Keep
        } else {
            match s.set {
                None => Change::Drop(row),
                Some(set) => match assign_upto(s.schema, row, set, set.len()) {
                    Err(_) => Change::Keep,
                    Ok(new_row) => match serialized(s.schema.columns, new_row) {
                        Err(_) => Change::Keep,
                        Ok(u) => if u.len() <= t.len() {
                            Change::Write(row, new_row, u)
                        } else {
                            Change::Keep
                        },
                    },
                },
            }
        },
    }
}

/// Deleting or updating the row in a slot, if it is selected. The log takes the change first.
pub open spec fn sweep_slot(w: Work, s: Sweep, id: u32, slot: u16) -> Work {
    match page_get(w.page, slot as int) {
        None => w,
        Some(t) => match change_of(s, t) {
            Change::Keep => w,
            Change::Drop(row) => Work {
                page: page_body(page_try_drop(w.page, slot)),
                wal: wal_delete(w.wal, s.txn, id, slot),
                indexes: index_remove_row(
                    w.indexes,
                    s.table,
                    s.schema.columns,
                    row,
                    s.schema.columns.len(),
                ),
            },
            Change::Write(row, new_row, u) => Work {
                page: page_body(page_try_overwrite(w.page, slot, u)),
                wal: wal_update(w.wal, s.txn, id, slot, t, u),
                indexes: index_change_row(
                    w.indexes,
                    s.table,
                    s.schema.columns,
                    row,
                    new_row,
                    Rid { page_id: id, slot_id: slot },
                    s.schema.columns.len(),
                ),
            },
        },
    }
}

/// Going through the first `n` slots of a page.
pub open spec fn sweep_slots(w: Work, s: Sweep, id: u32, n: nat) -> Work
    decreases n,
{
    if n == 0 {
        w
    } else {
        sweep_slot(sweep_slots(w, s, id, (n - 1) as nat), s, id, (n - 1) as u16)
    }
}

/// Going through the first `n` pages of `ids`.
pub open spec fn sweep_pages(db: DbView, s: Sweep, ids: Seq<u32>, n: nat) -> DbView
    decreases n,
{
    if n == 0 {
        db
    } else {
        let v = sweep_pages(db, s, ids, (n - 1) as nat);
        let id = ids[n - 1];
        match v.pages[id] {
            Err(_) => v,
            Ok(d) => {
                let w = sweep_slots(
                    Work { page: d, wal: v.wal, indexes: v.indexes },
                    s,
                    id,
                    page_count(d) as nat,
                );
                DbView {
                    pages: v.pages.insert(id, Ok(w.page)),
                    wal: w.wal,
                    indexes: w.indexes,
                    ..v
                }
            },
        }
    }
}

/// Which of the assignments of an UPDATE are of a primary key that some row has.
pub open spec fn key_dups(
    db: DbView,
    schema: SchemaView,
    table: Seq<char>,
    set: Option<Seq<AssignmentView>>,
) -> Seq<bool> {
    match set {
        None => Seq::empty(),
        Some(set) => Seq::new(
            set.len(),
            |k: int|
                schema.primary_key == Some(set[k].column) && key_in_use(
                    db,
                    schema,
                    table,
                    set[k].value,
                ),
        ),
    }
}

/// The statement that a DELETE or UPDATE runs on a database.
pub open spec fn sweep_of(
    db: DbView,
    table: Seq<char>,
    filter: Option<ExprView>,
    set: Option<Seq<AssignmentView>>,
) -> Sweep {
    let schema = db.catalog.get(table)->0;
    Sweep {
        schema,
        table,
        filter,
        txn: db.wal.next_txn,
        set,
        dups: key_dups(db, schema, table, set),
    }
}

/// What a DELETE or UPDATE does and returns: one transaction. It looks at all rows of the table
/// before it changes any; if it fails at one of them, it is aborted and changes nothing.
pub open spec fn sweep(
    db: DbView,
    table: Seq<char>,
    filter: Option<ExprView>,
    set: Option<Seq<AssignmentView>>,
) -> (DbView, Result<Seq<RowView>, Seq<char>>) {
    match db.catalog.get(table) {
        None => (db, Err(msg_no_table(table))),
        Some(_) => {
            let s = sweep_of(db, table, filter, set);
            let ids = table_pages(db.tables, table)->0;
            let begun = DbView { wal: wal_begin(db.wal), ..db };
            match survey_pages(db.pages, s, ids, ids.len()) {
                Err(e) => (DbView { wal: wal_abort(begun.wal, s.txn), ..begun }, Err(e)),
                Ok(_) => {
                    let v = sweep_pages(begun, s, ids, ids.len());
                    (DbView { wal: wal_commit(v.wal, s.txn), ..v }, Ok(Seq::empty()))
                },
            }
        },
    }
}

/// What a CREATE TABLE does and returns. The primary key gets an index, also if the table is refused
/// because there is one of its name: an index without entries, if there is none on that column.
pub open spec fn create_table(db: DbView, table: Seq<char>, columns: Seq<ColumnView>) -> (
    DbView,
    Result<Seq<RowView>, Seq<char>>,
) {
    let schema = new_schema(table, columns);
    let indexes = match schema.primary_key {
        Some(key) => index_create(db.indexes, table, key),
        None => db.indexes,
    };
    if db.catalog.get(table) is Some {
        (DbView { indexes, ..db }, Err(msg_table_exists(table)))
    } else {
        let catalog = CatalogView {
            tables: db.catalog.tables.push(schema),
            index_defs: match schema.primary_key {
                Some(key) => db.catalog.index_defs.push((table, key)),
                None => db.catalog.index_defs,
            },
        };
        (
            DbView {
                catalog,
                indexes,
                tables: tables_put(db.tables, table, Seq::empty()),
                catalog_file: Some(catalog_bytes(catalog)),
                meta_files: files_put(db.meta_files, table, meta_bytes(Seq::empty())),
                ..db
            },
            Ok(Seq::empty()),
        )
    }
}

/// What a statement does and returns.
pub open spec fn execute(db: DbView, stmt: StatementView) -> (
    DbView,
    Result<Seq<RowView>, Seq<char>>,
) {
    match stmt {
        StatementView::CreateTable { table, columns } => create_table(db, table, columns),
        StatementView::Insert { table, values } => insert(db, table, values),
        StatementView::Select { table, columns, filter, order_by, limit } => (
            db,
            select(db, table, columns, filter, order_by, limit),
        ),
        StatementView::Delete { table, filter } => sweep(db, table, filter, None),
        StatementView::Update { table, assignments, filter } => sweep(
            db,
            table,
            filter,
            Some(assignments),
        ),
    }
}

// Recovery.

/// Adds the integers of a stored row to the indexes on the first `n` columns.
pub open spec fn index_load_row(
    indexes: Seq<IndexView>,
    table: Seq<char>,
    schema: SchemaView,
    row: RowView,
    rid: Rid,
    n: nat,
) -> Seq<IndexView>
    decreases n,
{
    if n == 0 {
        indexes
    } else {
        let v = index_load_row(indexes, table, schema, row, rid, (n - 1) as nat);
        let name = schema.columns[n - 1].name;
        match row[schema.col(name)->0] {
            ValueView::Int(key) => index_insert(v, table, name, key, rid),
            _ => v,
        }
    }
}

/// Adds the rows in the first `n` slots of page `id` to the indexes. What cannot be read as a row is
/// passed over.
pub open spec fn index_load_slots(
    indexes: Seq<IndexView>,
    table: Seq<char>,
    schema: SchemaView,
    d: Seq<u8>,
    id: u32,
    n: nat,
) -> Seq<IndexView>
    decreases n,
{
    if n == 0 {
        indexes
    } else {
        let v = index_load_slots(indexes, table, schema, d, id, (n - 1) as nat);
        match page_get(d, n - 1) {
            None => v,
            Some(t) => match deserialized(schema.columns, t) {
                Err(_) => v,
                Ok(row) => index_load_row(
                    v,
                    table,
                    schema,
                    row,
                    Rid { page_id: id, slot_id: (n - 1) as u16 },
                    schema.columns.len(),
                ),
            },
        }
    }
}

/// Adds the rows of the first `n` pages of `ids` to the indexes. A page that cannot be read is
/// passed over.
pub open spec fn index_load_pages(
    indexes: Seq<IndexView>,
    pages: Map<u32, Result<Seq<u8>, StorageError>>,
    table: Seq<char>,
    schema: SchemaView,
    ids: Seq<u32>,
    n: nat,
) -> Seq<IndexView>
    decreases n,
{
    if n == 0 {
        indexes
    } else {
        let v = index_load_pages(indexes, pages, table, schema, ids, (n - 1) as nat);
        match pages[ids[n - 1]] {
            Err(_) => v,
            Ok(d) => index_load_slots(v, table, schema, d, ids[n - 1], page_count(d) as nat),
        }
    }
}

/// Adds the rows of the first `n` tables to the indexes.
pub open spec fn index_load_tables(
    indexes: Seq<IndexView>,
    pages: Map<u32, Result<Seq<u8>, StorageError>>,
    catalog: CatalogView,
    tables: Seq<TableView>,
    n: nat,
) -> Seq<IndexView>
    decreases n,
{
    if n == 0 {
        indexes
    } else {
        let v = index_load_tables(indexes, pages, catalog, tables, (n - 1) as nat);
        let t = tables[n - 1];
        match catalog.get(t.name) {
            None => v,
            Some(schema) => index_load_pages(v, pages, t.name, schema, t.pages, t.pages.len()),
        }
    }
}

/// Empty indexes on the first `n` of `defs`.
pub open spec fn index_create_all(defs: Seq<(Seq<char>, Seq<char>)>, n: nat) -> Seq<IndexView>
    decreases n,
{
    if n == 0 {
        Seq::empty()
    } else {
        index_create(index_create_all(defs, (n - 1) as nat), defs[n - 1].0, defs[n - 1].1)
    }
}

/// The page list of a table in the files; empty where there is no file.
pub open spec fn meta_in(files: Seq<(Seq<char>, Seq<u8>)>, name: Seq<char>) -> Seq<u32> {
    match position(file_names(files), name, 0) {
        Some(i) => meta_of(files[i].1),
        None => Seq::empty(),
    }
}

/// The page lists of the tables of a catalog.
pub open spec fn metas_in(files: Seq<(Seq<char>, Seq<u8>)>, catalog: CatalogView) -> Seq<
    TableView,
> {
    Seq::new(
        catalog.tables.len(),
        |i: int|
            TableView { name: catalog.tables[i].name, pages: meta_in(files, catalog.tables[i].name) },
    )
}

/// The pages after those that were rebuilt from the log replaced what could be read of them.
pub open spec fn restored(
    pages: Map<u32, Result<Seq<u8>, StorageError>>,
    logged: Map<u32, Seq<u8>>,
) -> Map<u32, Result<Seq<u8>, StorageError>> {
    Map::new(
        |id: u32| true,
        |id: u32|
            if logged.contains_key(id) && pages[id] is Ok {
                Ok(page_body(logged[id]))
            } else {
                pages[id]
            },
    )
}

/// The catalog in its file; empty where there is no file.
pub open spec fn catalog_in(file: Option<Seq<u8>>) -> Result<CatalogView, Seq<char>> {
    match file {
        None => Ok(CatalogView { tables: Seq::empty(), index_defs: Seq::empty() }),
        Some(buf) => catalog_of(buf),
    }
}

/// A database after recovery, given its catalog: the page lists come from their files, the pages
/// that the log tells of are rebuilt, and the indexes are dropped and filled from the pages.
pub open spec fn recovered_with(db: DbView, catalog: CatalogView) -> DbView {
    let tables = metas_in(db.meta_files, catalog);
    let logged = recovered(log_records(db.wal.log));
    let pages = restored(db.pages, logged);
    DbView {
        catalog,
        tables,
        pages,
        wal: WalView { pages: logged, ..db.wal },
        indexes: index_load_tables(
            index_create_all(catalog.index_defs, catalog.index_defs.len()),
            pages,
            catalog,
            tables,
            tables.len(),
        ),
        ..db
    }
}

/// What holds of a database between statements: every table has a page list, each schema is that
/// of a new table, no name occurs twice, and every page that can be read has the size of a page
/// and no checksum.
pub open spec fn db_wf(db: DbView) -> bool {
    &&& db.catalog.distinct()
    &&& forall|i: int|
        0 <= i < db.catalog.tables.len() ==> {
            let s = #[trigger] db.catalog.tables[i];
            &&& s == new_schema(s.name, s.columns)
            &&& table_pages(db.tables, s.name) is Some
        }
    &&& forall|id: u32| #[trigger] db.pages.contains_key(id)
    &&& forall|id: u32|
        (#[trigger] db.pages[id]) matches Ok(d) ==> d.len() == PAGE_SIZE && page_body(d) == d
}

} // verus!
