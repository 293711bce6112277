//! Deleting and updating the rows of a page.
use crate::engine::catalog::{
    column_names, law_row_fits, lemma_position, value_text, Schema, SchemaView,
};
use crate::engine::index_manager::IndexManager;
use crate::engine::model::{
    assign_check, assign_upto, index_add_row, index_change_row, index_remove_row, judge, key_text,
    last_assigned, msg_duplicate_key, msg_too_large, page_has_key, same_value, survey_slots,
    sweep_slot, sweep_slots, tuple_has_key, RowView, Sweep, Work,
};
use crate::engine::rows::{is_selected, Row};
use crate::index::node::Rid;
use crate::recovery::wal::WalManager;
use crate::sql::ast::{
    assignments_view, clone_values, filter_view, values_view, Assignment, AssignmentView, DataType,
    Expr, Value,
};
use crate::sql::number::Rank;
use crate::storage::page::{
    law_body_delete, law_body_reads, law_body_update, page_body, page_count, page_get, page_live,
    Page,
};
use crate::text::{dec_i64, join2, join3, join4, text_eq};
use vstd::prelude::*;
use vstd::string::*;

verus! {

/// The assignments of an UPDATE; none for a DELETE.
pub open spec fn set_view(set: Option<&Vec<Assignment>>) -> Option<Seq<AssignmentView>> {
    match set {
        Some(v) => Some(assignments_view(v@)),
        None => None,
    }
}

/// Adds the integers of a row to the indexes on their columns.
pub fn add_row(indexes: &mut IndexManager, table: &str, schema: &Schema, row: &Row, rid: Rid)
    requires
        old(indexes).wf(),
        row@.len() == schema@.columns.len(),
    ensures
        final(indexes).wf(),
        final(indexes)@ == index_add_row(
            old(indexes)@,
            table@,
            schema@.columns,
            values_view(row@),
            rid,
            schema@.columns.len(),
        ),
{
    let ghost start = indexes@;
    let ghost cols = schema@.columns;
    let ghost vs = values_view(row@);
    let mut i: usize = 0;
    while i < schema.columns.len()
        invariant
            i <= schema.columns@.len(),
            row@.len() == schema@.columns.len(),
            cols == schema@.columns,
            vs == values_view(row@),
            indexes.wf(),
            indexes@ == index_add_row(start, table@, cols, vs, rid, i as nat),
        decreases schema.columns@.len() - i,
    {
        assert(vs[i as int] == row@[i as int]@);
        assert(cols[i as int] == schema.columns@[i as int]@);
        if let Value::Int(key) = &row[i] {
            indexes.insert(table, schema.columns[i].name.as_str(), *key, rid);
        }
        i = i + 1;
    }
}

/// Removes the integers of a row from the indexes on their columns.
pub fn remove_row(indexes: &mut IndexManager, table: &str, schema: &Schema, row: &Row)
    requires
        old(indexes).wf(),
        row@.len() == schema@.columns.len(),
    ensures
        final(indexes).wf(),
        final(indexes)@ == index_remove_row(
            old(indexes)@,
            table@,
            schema@.columns,
            values_view(row@),
            schema@.columns.len(),
        ),
{
    let ghost start = indexes@;
    let ghost cols = schema@.columns;
    let ghost vs = values_view(row@);
    let mut i: usize = 0;
    while i < schema.columns.len()
        invariant
            i <= schema.columns@.len(),
            row@.len() == schema@.columns.len(),
            cols == schema@.columns,
            vs == values_view(row@),
            indexes.wf(),
            indexes@ == index_remove_row(start, table@, cols, vs, i as nat),
        decreases schema.columns@.len() - i,
    {
        assert(vs[i as int] == row@[i as int]@);
        assert(cols[i as int] == schema.columns@[i as int]@);
        if let Value::Int(key) = &row[i] {
            indexes.delete(table, schema.columns[i].name.as_str(), *key);
        }
        i = i + 1;
    }
}

/// Replaces the integers of a row in the indexes on their columns.
pub fn change_row(
    indexes: &mut IndexManager,
    table: &str,
    schema: &Schema,
    old_row: &Row,
    new_row: &Row,
    rid: Rid,
)
    requires
        old(indexes).wf(),
        old_row@.len() == schema@.columns.len(),
        new_row@.len() == schema@.columns.len(),
    ensures
        final(indexes).wf(),
        final(indexes)@ == index_change_row(
            old(indexes)@,
            table@,
            schema@.columns,
            values_view(old_row@),
            values_view(new_row@),
            rid,
            schema@.columns.len(),
        ),
{
    let ghost start = indexes@;
    let ghost cols = schema@.columns;
    let ghost a = values_view(old_row@);
    let ghost b = values_view(new_row@);
    let mut i: usize = 0;
    while i < schema.columns.len()
        invariant
            i <= schema.columns@.len(),
            old_row@.len() == schema@.columns.len(),
            new_row@.len() == schema@.columns.len(),
            cols == schema@.columns,
            a == values_view(old_row@),
            b == values_view(new_row@),
            indexes.wf(),
            indexes@ == index_change_row(start, table@, cols, a, b, rid, i as nat),
        decreases schema.columns@.len() - i,
    {
        assert(a[i as int] == old_row@[i as int]@);
        assert(b[i as int] == new_row@[i as int]@);
        assert(cols[i as int] == schema.columns@[i as int]@);
        if let Value::Int(key) = &old_row[i] {
            indexes.delete(table, schema.columns[i].name.as_str(), *key);
        }
        if let Value::Int(key) = &new_row[i] {
            indexes.insert(table, schema.columns[i].name.as_str(), *key, rid);
        }
        i = i + 1;
    }
}

/// The text that names a primary key in a message.
pub fn key_name(v: &Value) -> (s: String)
    ensures
        s@ == key_text(v@),
{
    match v {
        Value::Int(k) => dec_i64(*k),
        Value::Text(t) => t.as_str().to_owned(),
        _ => value_text(v),
    }
}

/// The message for a primary key that another row has.
pub fn duplicate_key(column: &str, v: &Value) -> (s: String)
    ensures
        s@ == msg_duplicate_key(column@, v@),
{
    let key = key_name(v);
    join4("duplicate primary key: ", column, " = ", key.as_str())
}

/// Tells whether two values are equal, as `=` compares them.
fn is_same(a: &Value, b: &Value) -> (same: bool)
    ensures
        same == same_value(a@, b@),
{
    match a.rank(b) {
        Some(Rank::Equal) => true,
        _ => false,
    }
}

/// Tells whether a stored row has a primary key that is equal to `v`.
fn has_key(schema: &Schema, tuple: &[u8], key_index: usize, v: &Value) -> (found: bool)
    requires
        schema@.pk_col() == Some(key_index as int),
        key_index < schema@.columns.len(),
    ensures
        found == tuple_has_key(schema@, tuple@, v@),
{
    proof {
        law_row_fits(schema@.columns, tuple@);
    }
    match schema.deserialize_row(tuple) {
        Err(_) => false,
        Ok(row) => {
            assert(values_view(row@).len() == row@.len());
            assert(values_view(row@)[key_index as int] == row@[key_index as int]@);
            is_same(&row[key_index], v)
        },
    }
}

/// Tells whether some row of a page has a primary key that is equal to `v`.
pub fn key_on_page(page: &Page, schema: &Schema, key_index: usize, v: &Value) -> (found: bool)
    requires
        schema@.pk_col() == Some(key_index as int),
        key_index < schema@.columns.len(),
    ensures
        found == exists|i: int| #[trigger] page_has_key(schema@, page_body(page.data@), i, v@),
{
    let ghost d = page_body(page.data@);
    proof {
        assert(page_body(d) =~= page_body(page.data@));
        law_body_reads(page.data@, d);
    }
    let n: u16 = page.num_slots();
    let mut slot: u16 = 0;
    while slot < n
        invariant
            slot <= n,
            n == page_count(d),
            d == page_body(page.data@),
            schema@.pk_col() == Some(key_index as int),
            key_index < schema@.columns.len(),
            forall|i: int| 0 <= i < slot ==> !#[trigger] page_has_key(schema@, d, i, v@),
        decreases n - slot,
    {
        if let Some(tuple) = page.copy_tuple(slot) {
            if has_key(schema, tuple.as_slice(), key_index, v) {
                assert(page_has_key(schema@, d, slot as int, v@));
                return true;
            }
        }
        slot = slot + 1;
    }
    assert forall|i: int| !#[trigger] page_has_key(schema@, d, i, v@) by {
        if i < 0 || i >= n {
            assert(page_get(d, i) is None);
        }
    }
    false
}

/// Finds the last assignment to a column.
fn find_last(set: &Vec<Assignment>, column: &str) -> (last: Option<usize>)
    ensures
        match last {
            Some(i) => i < set@.len() && last_assigned(
                assignments_view(set@),
                column@,
                set@.len(),
            ) == Some(set@[i as int].value@),
            None => last_assigned(assignments_view(set@), column@, set@.len()) is None,
        },
{
    let ghost av = assignments_view(set@);
    let mut last: Option<usize> = None;
    let mut k: usize = 0;
    while k < set.len()
        invariant
            k <= set@.len(),
            av == assignments_view(set@),
            match last {
                Some(i) => i < k && last_assigned(av, column@, k as nat) == Some(
                    set@[i as int].value@,
                ),
                None => last_assigned(av, column@, k as nat) is None,
            },
        decreases set@.len() - k,
    {
        assert(av[k as int] == set@[k as int]@);
        if text_eq(set[k].column.as_str(), column) {
            last = Some(k);
        }
        k = k + 1;
    }
    last
}

proof fn lemma_last_there(set: Seq<AssignmentView>, column: Seq<char>, k: int, n: nat)
    requires
        0 <= k < n,
        set[k].column == column,
    ensures
        last_assigned(set, column, n) is Some,
    decreases n,
{
    if k < n - 1 && set[n - 1].column != column {
        lemma_last_there(set, column, k, (n - 1) as nat);
    }
}

/// Checks that the assignments leave the primary key of a row neither NULL nor one that another
/// row has.
fn check_assignments(
    schema: &Schema,
    row: &Row,
    set: &Vec<Assignment>,
    dups: &Vec<bool>,
    given: bool,
    Ghost(s): Ghost<Sweep>,
) -> (res: Result<(), String>)
    requires
        row@.len() == schema@.columns.len(),
        s.schema == schema@,
        s.set == Some(assignments_view(set@)),
        s.dups == dups@,
        dups@.len() == set@.len(),
        schema@.primary_key is Some ==> schema@.pk_col() is Some,
    ensures
        match (res, assign_check(s, given, values_view(row@), set@.len())) {
            (Ok(_), Ok(_)) => true,
            (Err(e), Err(t)) => e@ == t,
            _ => false,
        },
{
    let key_column: &String = match &schema.primary_key {
        None => {
            return Ok(());
        },
        Some(k) => k,
    };
    let ghost vs = values_view(row@);
    let ghost av = assignments_view(set@);
    let key_index: usize = match schema.pk_col_index() {
        None => {
            return Ok(());
        },
        Some(i) => i,
    };
    proof {
        lemma_position(column_names(schema@.columns), key_column@, 0);
    }
    let last = find_last(set, key_column.as_str());
    let mut k: usize = 0;
    while k < set.len()
        invariant
            k <= set@.len(),
            row@.len() == schema@.columns.len(),
            key_index < row@.len(),
            s.schema == schema@,
            s.set == Some(av),
            s.dups == dups@,
            dups@.len() == set@.len(),
            schema@.primary_key == Some(key_column@),
            schema@.pk_col() == Some(key_index as int),
            vs == values_view(row@),
            av == assignments_view(set@),
            match last {
                Some(i) => i < set@.len() && last_assigned(av, key_column@, av.len()) == Some(
                    set@[i as int].value@,
                ),
                None => last_assigned(av, key_column@, av.len()) is None,
            },
            assign_check(s, given, vs, k as nat) == Ok::<(), Seq<char>>(()),
        decreases set@.len() - k,
    {
        assert(av[k as int] == set@[k as int]@);
        assert(vs[key_index as int] == row@[key_index as int]@);
        if text_eq(set[k].column.as_str(), key_column.as_str()) {
            proof {
                lemma_last_there(av, key_column@, k as int, av.len());
            }
            let value: &Value = &set[k].value;
            if let Value::Null = value {
                proof {
                    lemma_check_error(s, given, vs, (k + 1) as nat, av.len());
                }
                return Err(
                    join3("PRIMARY KEY column '", key_column.as_str(), "' cannot be NULL"),
                );
            }
            let again = match last {
                Some(i) => given && is_same(&set[i].value, value),
                None => false,
            };
            if !is_same(&row[key_index], value) && (dups[k] || again) {
                proof {
                    lemma_check_error(s, given, vs, (k + 1) as nat, av.len());
                }
                return Err(duplicate_key(key_column.as_str(), value));
            }
        }
        k = k + 1;
    }
    Ok(())
}

proof fn lemma_check_error(s: Sweep, given: bool, row: RowView, n: nat, m: nat)
    requires
        n <= m,
        assign_check(s, given, row, n) is Err,
    ensures
        assign_check(s, given, row, m) == assign_check(s, given, row, n),
    decreases m,
{
    if n < m {
        lemma_check_error(s, given, row, n, (m - 1) as nat);
    }
}

proof fn lemma_assign_error(
    schema: SchemaView,
    row: RowView,
    set: Seq<AssignmentView>,
    n: nat,
    m: nat,
)
    requires
        n <= m,
        assign_upto(schema, row, set, n) is Err,
    ensures
        assign_upto(schema, row, set, m) == assign_upto(schema, row, set, n),
    decreases m,
{
    if n < m {
        lemma_assign_error(schema, row, set, n, (m - 1) as nat);
    }
}

/// Applies the assignments to a row.
fn assign(schema: &Schema, row: &mut Row, set: &Vec<Assignment>) -> (res: Result<(), String>)
    requires
        old(row)@.len() == schema@.columns.len(),
    ensures
        final(row)@.len() == old(row)@.len(),
        match (
            res,
            assign_upto(schema@, values_view(old(row)@), assignments_view(set@), set@.len()),
        ) {
            (Ok(_), Ok(v)) => values_view(final(row)@) == v,
            (Err(e), Err(t)) => e@ == t,
            _ => false,
        },
{
    let ghost start = values_view(row@);
    let ghost av = assignments_view(set@);
    let mut k: usize = 0;
    while k < set.len()
        invariant
            k <= set@.len(),
            row@.len() == schema@.columns.len(),
            row@.len() == old(row)@.len(),
            start == values_view(old(row)@),
            av == assignments_view(set@),
            assign_upto(schema@, start, av, k as nat) == Ok::<RowView, Seq<char>>(
                values_view(row@),
            ),
        decreases set@.len() - k,
    {
        assert(av[k as int] == set@[k as int]@);
        let ghost before = values_view(row@);
        proof {
            lemma_position(column_names(schema@.columns), av[k as int].column, 0);
        }
        let i: usize = match schema.col_index(set[k].column.as_str()) {
            None => {
                proof {
                    lemma_assign_error(schema@, start, av, (k + 1) as nat, av.len());
                }
                return Err(join3("column '", set[k].column.as_str(), "' not found"));
            },
            Some(i) => i,
        };
        let ty: DataType = schema.columns[i].ty;
        assert(schema@.columns[i as int] == schema.columns@[i as int]@);
        let ok = match (&set[k].value, &ty) {
            (Value::Null, _) => true,
            (Value::Int(_), DataType::Int) => true,
            (Value::Text(_), DataType::Text) => true,
            (Value::Float(_), DataType::Float) => true,
            _ => false,
        };
        if !ok {
            proof {
                lemma_assign_error(schema@, start, av, (k + 1) as nat, av.len());
            }
            let v = value_text(&set[k].value);
            let head = join4(
                "type mismatch: cannot assign ",
                v.as_str(),
                " to column '",
                set[k].column.as_str(),
            );
            return Err(join2(head.as_str(), "'"));
        }
        row.set(i, set[k].value.clone());
        assert(values_view(row@) =~= before.update(i as int, av[k as int].value));
        k = k + 1;
    }
    Ok(())
}

/// The message for a row that does not fit in the place of the old one.
fn too_large() -> (s: String)
    ensures
        s@ == msg_too_large(),
{
    "UPDATE failed: new value for row is larger than original (in-place update only supported for same-size or smaller values)".to_owned()
}

/// Tells whether a stored row is to be deleted or updated, or why the statement fails at it.
fn judge_row(
    schema: &Schema,
    filter: &Option<Expr>,
    set: Option<&Vec<Assignment>>,
    dups: &Vec<bool>,
    given: bool,
    tuple: &[u8],
    Ghost(s): Ghost<Sweep>,
) -> (res: Result<bool, String>)
    requires
        s.schema == schema@,
        s.filter == filter_view(*filter),
        s.set == set_view(set),
        s.dups == dups@,
        set matches Some(v) ==> dups@.len() == v@.len(),
        schema@.primary_key is Some ==> schema@.pk_col() is Some,
    ensures
        match (res, judge(s, given, tuple@)) {
            (Ok(a), Ok(b)) => a == b,
            (Err(e), Err(t)) => e@ == t,
            _ => false,
        },
{
    proof {
        law_row_fits(schema@.columns, tuple@);
    }
    let row = match schema.deserialize_row(tuple) {
        Err(e) => {
            return Err(e);
        },
        Ok(row) => row,
    };
    assert(values_view(row@).len() == row@.len());
    match is_selected(schema, &row, filter) {
        Err(e) => {
            return Err(e);
        },
        Ok(false) => {
            return Ok(false);
        },
        Ok(true) => {},
    }
    match set {
        None => Ok(true),
        Some(assignments) => {
            match check_assignments(schema, &row, assignments, dups, given, Ghost(s)) {
                Err(e) => {
                    return Err(e);
                },
                Ok(_) => {},
            }
            let mut new_row: Row = row;
            match assign(schema, &mut new_row, assignments) {
                Err(e) => {
                    return Err(e);
                },
                Ok(_) => {},
            }
            match schema.serialize_row(new_row.as_slice()) {
                Err(e) => Err(e),
                Ok(bytes) => if bytes.len() <= tuple.len() {
                    Ok(true)
                } else {
                    Err(too_large())
                },
            }
        },
    }
}

proof fn lemma_survey_error(s: Sweep, given: bool, d: Seq<u8>, n: nat, m: nat)
    requires
        n <= m,
        survey_slots(s, given, d, n) is Err,
    ensures
        survey_slots(s, given, d, m) == survey_slots(s, given, d, n),
    decreases m,
{
    if n < m {
        lemma_survey_error(s, given, d, n, (m - 1) as nat);
    }
}

/// Judges the rows of a page. Tells whether one of them, or one before them, is to be changed, or
/// why the statement fails.
pub fn survey_page(
    page: &Page,
    schema: &Schema,
    filter: &Option<Expr>,
    set: Option<&Vec<Assignment>>,
    dups: &Vec<bool>,
    given: bool,
    Ghost(s): Ghost<Sweep>,
) -> (res: Result<bool, String>)
    requires
        s.schema == schema@,
        s.filter == filter_view(*filter),
        s.set == set_view(set),
        s.dups == dups@,
        set matches Some(v) ==> dups@.len() == v@.len(),
        schema@.primary_key is Some ==> schema@.pk_col() is Some,
    ensures
        ({
            let d = page_body(page.data@);
            match (res, survey_slots(s, given, d, page_count(d) as nat)) {
                (Ok(a), Ok(b)) => a == b,
                (Err(e), Err(t)) => e@ == t,
                _ => false,
            }
        }),
{
    let ghost d = page_body(page.data@);
    proof {
        assert(page_body(d) =~= page_body(page.data@));
        law_body_reads(page.data@, d);
    }
    let n: u16 = page.num_slots();
    let mut hit = given;
    let mut slot: u16 = 0;
    while slot < n
        invariant
            slot <= n,
            n == page_count(d),
            d == page_body(page.data@),
            s.schema == schema@,
            s.filter == filter_view(*filter),
            s.set == set_view(set),
            s.dups == dups@,
            set matches Some(v) ==> dups@.len() == v@.len(),
            schema@.primary_key is Some ==> schema@.pk_col() is Some,
            survey_slots(s, given, d, slot as nat) == Ok::<bool, Seq<char>>(hit),
        decreases n - slot,
    {
        if let Some(tuple) = page.copy_tuple(slot) {
            match judge_row(schema, filter, set, dups, hit, tuple.as_slice(), Ghost(s)) {
                Err(e) => {
                    proof {
                        lemma_survey_error(s, given, d, (slot + 1) as nat, n as nat);
                    }
                    return Err(e);
                },
                Ok(b) => {
                    hit = hit || b;
                },
            }
        }
        slot = slot + 1;
    }
    Ok(hit)
}

/// Deletes the row in a slot, or applies the assignments to it, if it is selected. Tells whether
/// the page changed.
fn sweep_row(
    page: &mut Page,
    wal: &mut WalManager,
    indexes: &mut IndexManager,
    schema: &Schema,
    table: &str,
    filter: &Option<Expr>,
    set: Option<&Vec<Assignment>>,
    txn: u32,
    id: u32,
    slot: u16,
    Ghost(s): Ghost<Sweep>,
) -> (changed: bool)
    requires
        old(wal).wf(),
        old(wal)@.lsn < u64::MAX,
        old(indexes).wf(),
        s.schema == schema@,
        s.table == table@,
        s.filter == filter_view(*filter),
        s.txn == txn,
        s.set == set_view(set),
    ensures
        final(wal).wf(),
        old(wal)@.lsn <= final(wal)@.lsn <= old(wal)@.lsn + 1,
        final(indexes).wf(),
        final(page).id == old(page).id,
        !changed ==> *final(page) == *old(page),
        ({
            let w = sweep_slot(
                Work {
                    page: page_body(old(page).data@),
                    wal: old(wal)@,
                    indexes: old(indexes)@,
                },
                s,
                id,
                slot,
            );
            &&& page_body(final(page).data@) == w.page
            &&& final(wal)@ == w.wal
            &&& final(indexes)@ == w.indexes
        }),
{
    let ghost d = page.data@;
    let ghost e = page_body(d);
    proof {
        assert(page_body(e) =~= e);
        law_body_reads(d, e);
        assert(page_live(d, slot as int) == page_live(e, slot as int));
    }
    let tuple: Vec<u8> = match page.copy_tuple(slot) {
        None => {
            return false;
        },
        Some(t) => t,
    };
    proof {
        law_row_fits(schema@.columns, tuple@);
    }
    let row = match schema.deserialize_row(tuple.as_slice()) {
        Err(_) => {
            return false;
        },
        Ok(row) => row,
    };
    assert(values_view(row@).len() == row@.len());
    match is_selected(schema, &row, filter) {
        Ok(true) => {},
        _ => {
            return false;
        },
    }
    match set {
        None => {
            wal.log_delete(txn, id, slot);
            page.delete_tuple(slot);
            remove_row(indexes, table, schema, &row);
            proof {
                law_body_delete(d, e, slot as int);
            }
            true
        },
        Some(assignments) => {
            let mut new_row: Row = clone_values(&row);
            match assign(schema, &mut new_row, assignments) {
                Err(_) => {
                    return false;
                },
                Ok(_) => {},
            }
            let bytes: Vec<u8> = match schema.serialize_row(new_row.as_slice()) {
                Err(_) => {
                    return false;
                },
                Ok(b) => b,
            };
            if bytes.len() > tuple.len() {
                return false;
            }
            wal.log_update(txn, id, slot, tuple.as_slice(), bytes.as_slice());
            page.update_tuple(slot, bytes.as_slice());
            proof {
                law_body_update(d, e, slot as int, bytes@);
            }
            change_row(indexes, table, schema, &row, &new_row, Rid { page_id: id, slot_id: slot });
            true
        },
    }
}

/// Goes through the rows of a page as `sweep_row` does with each. Tells whether the page changed.
pub fn sweep_page(
    page: &mut Page,
    wal: &mut WalManager,
    indexes: &mut IndexManager,
    schema: &Schema,
    table: &str,
    filter: &Option<Expr>,
    set: Option<&Vec<Assignment>>,
    txn: u32,
    id: u32,
    Ghost(s): Ghost<Sweep>,
) -> (changed: bool)
    requires
        old(wal).wf(),
        old(wal)@.lsn + 0x2_0000 <= u64::MAX,
        old(indexes).wf(),
        s.schema == schema@,
        s.table == table@,
        s.filter == filter_view(*filter),
        s.txn == txn,
        s.set == set_view(set),
    ensures
        final(wal).wf(),
        old(wal)@.lsn <= final(wal)@.lsn <= old(wal)@.lsn + 0x2_0000,
        final(indexes).wf(),
        final(page).id == old(page).id,
        !changed ==> *final(page) == *old(page),
        ({
            let d = page_body(old(page).data@);
            let w = sweep_slots(
                Work { page: d, wal: old(wal)@, indexes: old(indexes)@ },
                s,
                id,
                page_count(d) as nat,
            );
            &&& page_body(final(page).data@) == w.page
            &&& final(wal)@ == w.wal
            &&& final(indexes)@ == w.indexes
        }),
{
    let ghost first = Work { page: page_body(page.data@), wal: wal@, indexes: indexes@ };
    proof {
        assert(page_body(page_body(page.data@)) =~= page_body(page.data@));
        law_body_reads(page.data@, page_body(page.data@));
    }
    let n: u16 = page.num_slots();
    let mut changed = false;
    let mut slot: u16 = 0;
    while slot < n
        invariant
            slot <= n,
            s.schema == schema@,
            s.table == table@,
            s.filter == filter_view(*filter),
            s.txn == txn,
            s.set == set_view(set),
            n == page_count(first.page),
            first.page == page_body(old(page).data@),
            first.wal == old(wal)@,
            first.indexes == old(indexes)@,
            wal.wf(),
            indexes.wf(),
            page.id == old(page).id,
            !changed ==> *page == *old(page),
            old(wal)@.lsn + 0x2_0000 <= u64::MAX,
            old(wal)@.lsn <= wal@.lsn <= old(wal)@.lsn + slot,
            sweep_slots(first, s, id, slot as nat) == (Work {
                page: page_body(page.data@),
                wal: wal@,
                indexes: indexes@,
            }),
        decreases n - slot,
    {
        let c = sweep_row(
            page,
            wal,
            indexes,
            schema,
            table,
            filter,
            set,
            txn,
            id,
            slot,
            Ghost(s),
        );
        changed = changed || c;
        slot = slot + 1;
    }
    changed
}

} // verus!
