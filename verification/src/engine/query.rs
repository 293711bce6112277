//! Finding, sorting and cutting off the rows of a SELECT.
use crate::buffer::buffer_pool::{pool_contents, BufferPool};
use crate::engine::catalog::{
    column_names, deserialized, law_row_fits, lemma_position, Schema, SchemaView,
};
use crate::engine::heap::{lemma_kept, pages_kept, pool_ready, read_rid, scan_heap_page};
use crate::engine::index_manager::IndexManager;
use crate::engine::model::{
    index_rids, limited, order_column, project_upto, rid_rows, scan_pages, scan_slots, slot_row,
    sort_rows, RowView,
};
use crate::engine::rows::{apply_limit, rows_view, sort_column, sort_results, Row};
use crate::index::node::Rid;
use crate::sql::ast::{
    filter_view, order_view, values_view, DataType, Expr, ExprView, Op, OrderDir, SelectColumns,
    SelectView, Value,
};
use crate::storage::error::StorageError;
use crate::storage::page::{page_count, page_get};
use vstd::prelude::*;

verus! {

/// How many values a row of the result has.
pub open spec fn width(schema: SchemaView, columns: SelectView) -> nat {
    match columns {
        SelectView::Star => schema.columns.len(),
        SelectView::Named(names) => names.len(),
    }
}

/// Every row has `w` values.
pub open spec fn all_wide(rows: Seq<RowView>, w: nat) -> bool {
    forall|k: int| 0 <= k < rows.len() ==> (#[trigger] rows[k]).len() == w
}

proof fn lemma_project_width(schema: SchemaView, row: RowView, names: Seq<Seq<char>>, n: nat)
    ensures
        project_upto(schema, row, names, n) matches Ok(r) ==> r.len() == n,
    decreases n,
{
    if n > 0 {
        lemma_project_width(schema, row, names, (n - 1) as nat);
    }
}

proof fn lemma_slot_width(
    schema: SchemaView,
    filter: Option<ExprView>,
    columns: SelectView,
    d: Seq<u8>,
    i: int,
)
    ensures
        slot_row(schema, filter, columns, d, i) matches Ok(Some(r)) ==> r.len() == width(
            schema,
            columns,
        ),
{
    if let Some(t) = page_get(d, i) {
        law_row_fits(schema.columns, t);
        if let Ok(row) = deserialized(schema.columns, t) {
            if let SelectView::Named(names) = columns {
                lemma_project_width(schema, row, names, names.len());
            }
        }
    }
}

proof fn lemma_slots_width(
    schema: SchemaView,
    filter: Option<ExprView>,
    columns: SelectView,
    d: Seq<u8>,
    rows: Seq<RowView>,
    n: nat,
)
    requires
        all_wide(rows, width(schema, columns)),
    ensures
        scan_slots(schema, filter, columns, d, rows, n) matches Ok(rs) ==> all_wide(
            rs,
            width(schema, columns),
        ),
    decreases n,
{
    if n > 0 {
        lemma_slots_width(schema, filter, columns, d, rows, (n - 1) as nat);
        lemma_slot_width(schema, filter, columns, d, n - 1);
    }
}

/// Every row that a scan finds has the width of the result.
proof fn lemma_scan_width(
    pages: Map<u32, Result<Seq<u8>, StorageError>>,
    schema: SchemaView,
    filter: Option<ExprView>,
    columns: SelectView,
    ids: Seq<u32>,
    n: nat,
)
    ensures
        scan_pages(pages, schema, filter, columns, ids, n) matches Ok(rows) ==> all_wide(
            rows,
            width(schema, columns),
        ),
    decreases n,
{
    if n > 0 {
        lemma_scan_width(pages, schema, filter, columns, ids, (n - 1) as nat);
        if let Ok(rows) = scan_pages(pages, schema, filter, columns, ids, (n - 1) as nat) {
            if let Ok(d) = pages[ids[n - 1]] {
                lemma_slots_width(schema, filter, columns, d, rows, page_count(d) as nat);
            }
        }
    }
}

/// Every row that row pointers lead to has the width of the result.
proof fn lemma_rid_width(
    pages: Map<u32, Result<Seq<u8>, StorageError>>,
    schema: SchemaView,
    filter: ExprView,
    columns: SelectView,
    ids: Seq<u32>,
    rids: Seq<Rid>,
    n: nat,
)
    ensures
        rid_rows(pages, schema, filter, columns, ids, rids, n) matches Ok(rows) ==> all_wide(
            rows,
            width(schema, columns),
        ),
    decreases n,
{
    if n > 0 {
        lemma_rid_width(pages, schema, filter, columns, ids, rids, (n - 1) as nat);
        if let Ok(d) = pages[rids[n - 1].page_id] {
            lemma_slot_width(schema, Some(filter), columns, d, rids[n - 1].slot_id as int);
        }
    }
}

proof fn lemma_scan_error(
    pages: Map<u32, Result<Seq<u8>, StorageError>>,
    schema: SchemaView,
    filter: Option<ExprView>,
    columns: SelectView,
    ids: Seq<u32>,
    n: nat,
    m: nat,
)
    requires
        n <= m,
        scan_pages(pages, schema, filter, columns, ids, n) is Err,
    ensures
        scan_pages(pages, schema, filter, columns, ids, m) == scan_pages(
            pages,
            schema,
            filter,
            columns,
            ids,
            n,
        ),
    decreases m,
{
    if n < m {
        lemma_scan_error(pages, schema, filter, columns, ids, n, (m - 1) as nat);
    }
}

proof fn lemma_rid_error(
    pages: Map<u32, Result<Seq<u8>, StorageError>>,
    schema: SchemaView,
    filter: ExprView,
    columns: SelectView,
    ids: Seq<u32>,
    rids: Seq<Rid>,
    n: nat,
    m: nat,
)
    requires
        n <= m,
        rid_rows(pages, schema, filter, columns, ids, rids, n) is Err,
    ensures
        rid_rows(pages, schema, filter, columns, ids, rids, m) == rid_rows(
            pages,
            schema,
            filter,
            columns,
            ids,
            rids,
            n,
        ),
    decreases m,
{
    if n < m {
        lemma_rid_error(pages, schema, filter, columns, ids, rids, n, (m - 1) as nat);
    }
}

/// The row pointers that an index has for a WHERE clause, if it can be used.
pub fn index_hits(indexes: &IndexManager, schema: &Schema, table: &str, expr: &Expr) -> (res: Option<
    Vec<Rid>,
>)
    requires
        indexes.wf(),
    ensures
        match (res, index_rids(indexes@, schema@, table@, expr@)) {
            (Some(v), Some(s)) => v@ == s,
            (None, None) => true,
            _ => false,
        },
{
    let column: &str = expr.left.as_str();
    if !indexes.has_index(table, column) {
        return None;
    }
    proof {
        lemma_position(column_names(schema@.columns), column@, 0);
    }
    match schema.col_index(column) {
        Some(i) => {
            assert(schema@.columns[i as int] == schema.columns@[i as int]@);
            match schema.columns[i].ty {
                DataType::Int => {},
                _ => {
                    return None;
                },
            }
        },
        None => {
            return None;
        },
    }
    let n: i64 = match &expr.right {
        Value::Int(n) => *n,
        _ => {
            return None;
        },
    };
    match expr.op {
        Op::Eq => {
            let mut hits: Vec<Rid> = Vec::new();
            if let Some(rid) = indexes.search(table, column, n) {
                hits.push(rid);
                assert(hits@ =~= seq![rid]);
            }
            Some(hits)
        },
        Op::Gt => if n == i64::MAX {
            Some(Vec::new())
        } else {
            Some(indexes.range_scan(table, column, n + 1, i64::MAX))
        },
        Op::Ge => Some(indexes.range_scan(table, column, n, i64::MAX)),
        Op::Lt => if n == i64::MIN {
            Some(Vec::new())
        } else {
            Some(indexes.range_scan(table, column, i64::MIN, n - 1))
        },
        Op::Le => Some(indexes.range_scan(table, column, i64::MIN, n)),
        _ => None,
    }
}

/// The selected rows of a table, page by page.
pub fn scan_table(
    pool: &mut BufferPool,
    schema: &Schema,
    filter: &Option<Expr>,
    columns: &SelectColumns,
    ids: &Vec<u32>,
) -> (res: Result<Vec<Row>, String>)
    requires
        pool_ready(old(pool)@),
    ensures
        pages_kept(old(pool)@, final(pool)@),
        match (
            res,
            scan_pages(
                pool_contents(old(pool)@),
                schema@,
                filter_view(*filter),
                columns@,
                ids@,
                ids@.len(),
            ),
        ) {
            (Ok(rows), Ok(v)) => rows_view(rows@) == v && all_wide(v, width(schema@, columns@)),
            (Err(e), Err(t)) => e@ == t,
            _ => false,
        },
{
    let ghost p = pool@;
    let ghost pages = pool_contents(p);
    let ghost fv = filter_view(*filter);
    let mut rows: Vec<Row> = Vec::new();
    assert(rows_view(rows@) =~= Seq::empty());
    let mut k: usize = 0;
    while k < ids.len()
        invariant
            k <= ids@.len(),
            pool_ready(p),
            pages_kept(p, pool@),
            p == old(pool)@,
            pages == pool_contents(p),
            fv == filter_view(*filter),
            scan_pages(pages, schema@, fv, columns@, ids@, k as nat) == Ok::<
                Seq<RowView>,
                Seq<char>,
            >(rows_view(rows@)),
        decreases ids@.len() - k,
    {
        let ghost q = pool@;
        let scanned = scan_heap_page(pool, ids[k], schema, filter, columns, &mut rows);
        proof {
            lemma_kept(p, q, pool@);
        }
        match scanned {
            Err(e) => {
                proof {
                    lemma_scan_error(
                        pages,
                        schema@,
                        fv,
                        columns@,
                        ids@,
                        (k + 1) as nat,
                        ids@.len(),
                    );
                }
                return Err(e);
            },
            Ok(_) => {},
        }
        k = k + 1;
    }
    proof {
        lemma_scan_width(pages, schema@, fv, columns@, ids@, ids@.len());
    }
    Ok(rows)
}

fn has_id(ids: &Vec<u32>, id: u32) -> (b: bool)
    ensures
        b == ids@.contains(id),
{
    let mut i: usize = 0;
    while i < ids.len()
        invariant
            i <= ids@.len(),
            forall|k: int| 0 <= k < i ==> ids@[k] != id,
        decreases ids@.len() - i,
    {
        if ids[i] == id {
            return true;
        }
        i = i + 1;
    }
    false
}

/// The selected rows that row pointers lead to.
pub fn read_rids(
    pool: &mut BufferPool,
    schema: &Schema,
    filter: &Option<Expr>,
    columns: &SelectColumns,
    ids: &Vec<u32>,
    rids: &Vec<Rid>,
) -> (res: Result<Vec<Row>, String>)
    requires
        pool_ready(old(pool)@),
        *filter is Some,
    ensures
        pages_kept(old(pool)@, final(pool)@),
        match (
            res,
            rid_rows(
                pool_contents(old(pool)@),
                schema@,
                (*filter)->0@,
                columns@,
                ids@,
                rids@,
                rids@.len(),
            ),
        ) {
            (Ok(rows), Ok(v)) => rows_view(rows@) == v && all_wide(v, width(schema@, columns@)),
            (Err(e), Err(t)) => e@ == t,
            _ => false,
        },
{
    let ghost p = pool@;
    let ghost pages = pool_contents(p);
    let ghost fv = (*filter)->0@;
    let mut rows: Vec<Row> = Vec::new();
    assert(rows_view(rows@) =~= Seq::empty());
    let mut k: usize = 0;
    while k < rids.len()
        invariant
            k <= rids@.len(),
            pool_ready(p),
            pages_kept(p, pool@),
            p == old(pool)@,
            pages == pool_contents(p),
            filter_view(*filter) == Some(fv),
            rid_rows(pages, schema@, fv, columns@, ids@, rids@, k as nat) == Ok::<
                Seq<RowView>,
                Seq<char>,
            >(rows_view(rows@)),
        decreases rids@.len() - k,
    {
        let ghost before = rows_view(rows@);
        if has_id(ids, rids[k].page_id) {
            let ghost q = pool@;
            let read = read_rid(pool, rids[k], schema, filter, columns);
            proof {
                lemma_kept(p, q, pool@);
            }
            match read {
                Err(e) => {
                    proof {
                        lemma_rid_error(
                            pages,
                            schema@,
                            fv,
                            columns@,
                            ids@,
                            rids@,
                            (k + 1) as nat,
                            rids@.len(),
                        );
                    }
                    return Err(e);
                },
                Ok(None) => {},
                Ok(Some(row)) => {
                    let ghost r = values_view(row@);
                    rows.push(row);
                    assert(rows_view(rows@) =~= before.push(r));
                },
            }
        }
        k = k + 1;
    }
    proof {
        lemma_rid_width(pages, schema@, fv, columns@, ids@, rids@, rids@.len());
    }
    Ok(rows)
}

/// Sorts the rows of a result and cuts them off.
pub fn arrange(
    rows: &mut Vec<Row>,
    schema: &Schema,
    columns: &SelectColumns,
    order_by: &Option<(String, OrderDir)>,
    limit: Option<u64>,
) -> (res: Result<(), String>)
    requires
        all_wide(rows_view(old(rows)@), width(schema@, columns@)),
    ensures
        match order_view(*order_by) {
            None => res is Ok && rows_view(final(rows)@) == limited(rows_view(old(rows)@), limit),
            Some((name, dir)) => match order_column(schema@, columns@, name) {
                Err(t) => res is Err && (res->Err_0)@ == t,
                Ok(i) => res is Ok && rows_view(final(rows)@) == limited(
                    sort_rows(rows_view(old(rows)@), i, dir, old(rows)@.len()),
                    limit,
                ),
            },
        },
{
    if let Some((name, dir)) = order_by {
        let i: usize = match sort_column(schema, columns, name.as_str()) {
            Err(e) => {
                return Err(e);
            },
            Ok(i) => i,
        };
        proof {
            lemma_position(column_names(schema@.columns), name@, 0);
            if let SelectView::Named(names) = columns@ {
                lemma_position(names, name@, 0);
            }
            assert forall|k: int| 0 <= k < rows@.len() implies i < (#[trigger] rows@[k])@.len() by {
                assert(rows_view(rows@)[k] == values_view(rows@[k]@));
            }
        }
        sort_results(rows, i, *dir);
    }
    apply_limit(rows, limit);
    Ok(())
}

} // verus!
