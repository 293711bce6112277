//! Filtering, projecting and sorting rows.
use crate::engine::catalog::{
    column_names, law_row_fits, lemma_position, position, value_text, Schema, SchemaView,
};
use crate::engine::model::{
    debug_op, filter_holds, limited, order_column, project_upto, row_rank, scan_slots, selected,
    sort_place, sort_rank, sort_rows, tuple_row, RowView,
};
use crate::sql::ast::{
    filter_view, names_view, values_view, Expr, ExprView, Op, OrderDir, SelectColumns, SelectView,
    Value,
};
use crate::sql::number::Rank;
use crate::storage::page::{law_body_reads, page_body, page_count, Page};
use crate::text::{join3, join4, text_eq};
use vstd::prelude::*;
use vstd::string::*;

verus! {

/// A row returned from a query.
pub type Row = Vec<Value>;

/// What rows are.
pub open spec fn rows_view(s: Seq<Row>) -> Seq<RowView> {
    Seq::new(s.len(), |i: int| values_view(s[i]@))
}

/// Writes the name of an operator.
fn op_text(op: Op) -> (s: String)
    ensures
        s@ == debug_op(op),
{
    match op {
        Op::Eq => "Eq".to_owned(),
        Op::Ne => "Ne".to_owned(),
        Op::Lt => "Lt".to_owned(),
        Op::Gt => "Gt".to_owned(),
        Op::Le => "Le".to_owned(),
        Op::Ge => "Ge".to_owned(),
        Op::IsNull => "IsNull".to_owned(),
        Op::IsNotNull => "IsNotNull".to_owned(),
    }
}

/// Tells whether a row satisfies a WHERE clause.
pub fn eval_filter(schema: &Schema, row: &Row, expr: &Expr) -> (res: Result<bool, String>)
    requires
        row@.len() == schema@.columns.len(),
    ensures
        match (res, filter_holds(schema@, values_view(row@), expr@)) {
            (Ok(b), Ok(c)) => b == c,
            (Err(e), Err(t)) => e@ == t,
            _ => false,
        },
{
    proof {
        lemma_position(column_names(schema@.columns), expr.left@, 0);
    }
    let i: usize = match schema.col_index(expr.left.as_str()) {
        None => {
            return Err(join3("column '", expr.left.as_str(), "' not found"));
        },
        Some(i) => i,
    };
    let cell: &Value = &row[i];
    assert(values_view(row@)[i as int] == cell@);
    // NULL interacts with IS NULL and IS NOT NULL only.
    if expr.op == Op::IsNull {
        return Ok(cell.is_null());
    }
    if expr.op == Op::IsNotNull {
        return Ok(!cell.is_null());
    }
    if cell.is_null() || expr.right.is_null() {
        return Ok(false);
    }
    match cell.rank(&expr.right) {
        None => {
            let a = value_text(cell);
            let o = op_text(expr.op);
            let b = value_text(&expr.right);
            let head = join4("type mismatch in WHERE: ", a.as_str(), " ", o.as_str());
            Err(join3(head.as_str(), " ", b.as_str()))
        },
        Some(r) => Ok(
            match expr.op {
                Op::Eq => r == Rank::Equal,
                Op::Ne => r != Rank::Equal,
                Op::Lt => r == Rank::Less,
                Op::Gt => r == Rank::Greater,
                Op::Le => r != Rank::Greater,
                Op::Ge => r != Rank::Less,
                Op::IsNull => false,
                Op::IsNotNull => false,
            },
        ),
    }
}

/// Tells whether a row is selected by an optional WHERE clause.
pub fn is_selected(schema: &Schema, row: &Row, filter: &Option<Expr>) -> (res: Result<
    bool,
    String,
>)
    requires
        row@.len() == schema@.columns.len(),
    ensures
        match (res, selected(schema@, values_view(row@), filter_view(*filter))) {
            (Ok(b), Ok(c)) => b == c,
            (Err(e), Err(t)) => e@ == t,
            _ => false,
        },
{
    match filter {
        None => Ok(true),
        Some(e) => eval_filter(schema, row, e),
    }
}

/// Compares two values for sorting; NULL comes last.
pub fn compare_values(a: &Value, b: &Value) -> (r: Rank)
    ensures
        r == sort_rank(a@, b@),
{
    if a.is_null() {
        if b.is_null() {
            Rank::Equal
        } else {
            Rank::Greater
        }
    } else if b.is_null() {
        Rank::Less
    } else {
        match a.rank(b) {
            Some(r) => r,
            None => Rank::Less,
        }
    }
}

/// Picks the selected columns of a row.
pub fn project(schema: &Schema, row: Row, columns: &SelectColumns) -> (res: Result<Row, String>)
    requires
        row@.len() == schema@.columns.len(),
    ensures
        match (res, crate::engine::model::project(schema@, values_view(row@), columns@)) {
            (Ok(r), Ok(v)) => values_view(r@) == v,
            (Err(e), Err(t)) => e@ == t,
            _ => false,
        },
{
    match columns {
        SelectColumns::Star => Ok(row),
        SelectColumns::Named(names) => {
            let ghost all = names_view(names@);
            let ghost vs = values_view(row@);
            let mut out: Row = Vec::new();
            assert(values_view(out@) =~= Seq::empty());
            let mut k: usize = 0;
            while k < names.len()
                invariant
                    k <= names@.len(),
                    all == names_view(names@),
                    vs == values_view(row@),
                    row@.len() == schema@.columns.len(),
                    project_upto(schema@, vs, all, k as nat) == Ok::<RowView, Seq<char>>(
                        values_view(out@),
                    ),
                    columns@ == SelectView::Named(all),
                decreases names@.len() - k,
            {
                assert(all[k as int] == names@[k as int]@);
                let ghost before = values_view(out@);
                proof {
                    lemma_position(column_names(schema@.columns), all[k as int], 0);
                }
                match schema.col_index(names[k].as_str()) {
                    None => {
                        proof {
                            lemma_project_error(schema@, vs, all, (k + 1) as nat, all.len());
                        }
                        return Err(join3("column '", names[k].as_str(), "' not found"));
                    },
                    Some(i) => {
                        out.push(row[i].clone());
                        assert(values_view(out@) =~= before.push(vs[i as int]));
                    },
                }
                k = k + 1;
            }
            Ok(out)
        },
    }
}

proof fn lemma_project_error(
    schema: SchemaView,
    row: RowView,
    names: Seq<Seq<char>>,
    n: nat,
    m: nat,
)
    requires
        n <= m,
        project_upto(schema, row, names, n) is Err,
    ensures
        project_upto(schema, row, names, m) == project_upto(schema, row, names, n),
    decreases m,
{
    if n < m {
        lemma_project_error(schema, row, names, n, (m - 1) as nat);
    }
}

/// Reads a tuple; gives the selected columns if the row is selected.
pub fn read_tuple(
    schema: &Schema,
    filter: &Option<Expr>,
    columns: &SelectColumns,
    tuple: &[u8],
) -> (res: Result<Option<Row>, String>)
    ensures
        match (res, tuple_row(schema@, filter_view(*filter), columns@, tuple@)) {
            (Ok(Some(r)), Ok(Some(v))) => values_view(r@) == v,
            (Ok(None), Ok(None)) => true,
            (Err(e), Err(t)) => e@ == t,
            _ => false,
        },
{
    proof {
        law_row_fits(schema@.columns, tuple@);
    }
    let row = match schema.deserialize_row(tuple) {
        Err(e) => {
            return Err(e);
        },
        Ok(row) => row,
    };
    assert(values_view(row@).len() == row@.len());
    match is_selected(schema, &row, filter) {
        Err(e) => Err(e),
        Ok(false) => Ok(None),
        Ok(true) => match project(schema, row, columns) {
            Err(e) => Err(e),
            Ok(r) => Ok(Some(r)),
        },
    }
}

proof fn lemma_scan_error(
    schema: SchemaView,
    filter: Option<ExprView>,
    columns: SelectView,
    d: Seq<u8>,
    rows: Seq<RowView>,
    n: nat,
    m: nat,
)
    requires
        n <= m,
        scan_slots(schema, filter, columns, d, rows, n) is Err,
    ensures
        scan_slots(schema, filter, columns, d, rows, m) == scan_slots(
            schema,
            filter,
            columns,
            d,
            rows,
            n,
        ),
    decreases m,
{
    if n < m {
        lemma_scan_error(schema, filter, columns, d, rows, n, (m - 1) as nat);
    }
}

/// Appends the selected rows of a page.
pub fn scan_page(
    page: &Page,
    schema: &Schema,
    filter: &Option<Expr>,
    columns: &SelectColumns,
    rows: &mut Vec<Row>,
) -> (res: Result<(), String>)
    ensures
        ({
            let d = page_body(page.data@);
            match (
                res,
                scan_slots(
                    schema@,
                    filter_view(*filter),
                    columns@,
                    d,
                    rows_view(old(rows)@),
                    page_count(d) as nat,
                ),
            ) {
                (Ok(_), Ok(v)) => rows_view(final(rows)@) == v,
                (Err(e), Err(t)) => e@ == t,
                _ => false,
            }
        }),
{
    let ghost d = page_body(page.data@);
    let ghost start = rows_view(rows@);
    let ghost fv = filter_view(*filter);
    proof {
        assert(page_body(d) =~= page_body(page.data@));
        law_body_reads(page.data@, d);
    }
    let n: u16 = page.num_slots();
    let mut slot: u16 = 0;
    while slot < n
        invariant
            slot <= n,
            n == page_count(d),
            fv == filter_view(*filter),
            d == page_body(page.data@),
            start == rows_view(old(rows)@),
            scan_slots(schema@, fv, columns@, d, start, slot as nat) == Ok::<
                Seq<RowView>,
                Seq<char>,
            >(rows_view(rows@)),
        decreases n - slot,
    {
        let ghost before = rows_view(rows@);
        if let Some(tuple) = page.copy_tuple(slot) {
            match read_tuple(schema, filter, columns, tuple.as_slice()) {
                Err(e) => {
                    proof {
                        lemma_scan_error(
                            schema@,
                            fv,
                            columns@,
                            d,
                            start,
                            (slot + 1) as nat,
                            n as nat,
                        );
                    }
                    return Err(e);
                },
                Ok(None) => {},
                Ok(Some(row)) => {
                    let ghost r = values_view(row@);
                    rows.push(row);
                    assert(rows_view(rows@) =~= before.push(r));
                },
            }
        }
        slot = slot + 1;
    }
    Ok(())
}

/// Sorts rows by a column. Rows that compare equal keep their order.
pub fn sort_results(rows: &mut Vec<Row>, i: usize, dir: OrderDir)
    requires
        forall|k: int| 0 <= k < old(rows)@.len() ==> i < (#[trigger] old(rows)@[k])@.len(),
    ensures
        rows_view(final(rows)@) == sort_rows(
            rows_view(old(rows)@),
            i as int,
            dir,
            old(rows)@.len(),
        ),
{
    let ghost all = rows_view(rows@);
    let n: usize = rows.len();
    let mut k: usize = 0;
    assert(sort_rows(all, i as int, dir, 0) + all.skip(0) =~= all);
    while k < n
        invariant
            k <= n,
            n == rows@.len(),
            n == all.len(),
            rows_view(rows@) == sort_rows(all, i as int, dir, k as nat) + all.skip(k as int),
            sort_rows(all, i as int, dir, k as nat).len() == k,
            forall|x: int| 0 <= x < rows@.len() ==> i < (#[trigger] rows@[x])@.len(),
        decreases n - k,
    {
        let ghost now = rows_view(rows@);
        let ghost done = sort_rows(all, i as int, dir, k as nat);
        assert(now[k as int] == all[k as int]);
        let mut j: usize = k;
        while j > 0 && row_before(&rows[k], &rows[j - 1], i, dir)
            invariant
                j <= k < n,
                n == rows@.len(),
                now == rows_view(rows@),
                done.len() == k,
                now == done + all.skip(k as int),
                now[k as int] == all[k as int],
                all.len() == n,
                forall|x: int| 0 <= x < rows@.len() ==> i < (#[trigger] rows@[x])@.len(),
                sort_place(done, all[k as int], i as int, dir, k as nat) == sort_place(
                    done,
                    all[k as int],
                    i as int,
                    dir,
                    j as nat,
                ),
            decreases j,
        {
            assert(now[k as int] == values_view(rows@[k as int]@));
            assert(now[j - 1] == values_view(rows@[j - 1]@));
            assert(now[j - 1] == done[j - 1]);
            j = j - 1;
        }
        proof {
            if j > 0 {
                assert(now[k as int] == values_view(rows@[k as int]@));
                assert(now[j - 1] == values_view(rows@[j - 1]@));
                assert(now[j - 1] == done[j - 1]);
            }
            assert(sort_place(done, all[k as int], i as int, dir, k as nat) == j);
        }
        let row = rows.remove(k);
        rows.insert(j, row);
        proof {
            let next = sort_rows(all, i as int, dir, (k + 1) as nat);
            assert(next == done.insert(j as int, all[k as int]));
            assert(rows_view(rows@) =~= next + all.skip(k + 1)) by {
                assert forall|x: int| 0 <= x < n implies rows_view(rows@)[x] == (next + all.skip(
                    k + 1,
                ))[x] by {
                    if x < j {
                        assert(now[x] == done[x]);
                    } else if x > j && x <= k {
                        assert(now[x - 1] == done[x - 1]);
                    } else if x > k {
                        assert(now[x] == all[x]);
                    }
                }
            }
        }
        k = k + 1;
    }
    assert(all.skip(n as int) =~= Seq::empty());
    assert(sort_rows(all, i as int, dir, n as nat) + all.skip(n as int) =~= sort_rows(
        all,
        i as int,
        dir,
        n as nat,
    ));
}

/// Row `a` comes before row `b` by column `i`.
fn row_before(a: &Row, b: &Row, i: usize, dir: OrderDir) -> (res: bool)
    requires
        i < a@.len(),
        i < b@.len(),
    ensures
        res == (row_rank(values_view(a@), values_view(b@), i as int, dir) == Rank::Less),
{
    let r = compare_values(&a[i], &b[i]);
    match dir {
        OrderDir::Asc => r == Rank::Less,
        OrderDir::Desc => r == Rank::Greater,
    }
}

/// The column of the result to sort by.
pub fn sort_column(schema: &Schema, columns: &SelectColumns, name: &str) -> (res: Result<
    usize,
    String,
>)
    ensures
        match (res, order_column(schema@, columns@, name@)) {
            (Ok(i), Ok(j)) => i == j,
            (Err(e), Err(t)) => e@ == t,
            _ => false,
        },
{
    match columns {
        SelectColumns::Star => match schema.col_index(name) {
            Some(i) => Ok(i),
            None => Err(join3("ORDER BY column '", name, "' not found")),
        },
        SelectColumns::Named(names) => {
            let ghost all = names_view(names@);
            let mut i: usize = 0;
            while i < names.len()
                invariant
                    i <= names@.len(),
                    all == names_view(names@),
                    columns@ == SelectView::Named(all),
                    position(all, name@, 0) == position(all, name@, i as int),
                decreases names@.len() - i,
            {
                assert(all[i as int] == names@[i as int]@);
                if text_eq(names[i].as_str(), name) {
                    return Ok(i);
                }
                i = i + 1;
            }
            Err(join3("ORDER BY column '", name, "' not in SELECT list"))
        },
    }
}

/// Cuts the rows off after the first `limit`.
pub fn apply_limit(rows: &mut Vec<Row>, limit: Option<u64>)
    ensures
        rows_view(final(rows)@) == limited(rows_view(old(rows)@), limit),
{
    let ghost before = rows_view(rows@);
    if let Some(n) = limit {
        if n < rows.len() as u64 {
            rows.truncate(n as usize);
            assert(rows_view(rows@) =~= before.take(n as int));
        }
    }
}

} // verus!
