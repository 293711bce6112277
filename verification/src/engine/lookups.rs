//! Finding rows by primary key: an index finds what reading all rows finds.
use crate::engine::catalog::{deserialized, fits, law_row_fits, lemma_key_column, SchemaView};
use crate::engine::contents::{
    cell_rows, cells_upto, heap_ok, lemma_good_list, lemma_listed, lemma_scan_pages, page_cells,
    page_good, table_cells, Cell,
};
use crate::engine::index_manager::index_get;
use crate::engine::keys::{
    columns_apart, key_in, key_of, keyed, keys_at, keys_ok, lemma_table_cells, linked, tuple_at,
};
use crate::engine::model::{
    found_rows, index_rids, op_holds, rid_rows, scan_pages, selected, table_pages, tuple_row,
    DbView, RowView,
};
use crate::index::btree::{below, law_range, law_search, rid_of, rids_between, Entry};
use crate::index::node::Rid;
use crate::sql::ast::{DataType, ExprView, Op, SelectView, ValueView};
use crate::sql::number::rank_of;
use crate::storage::error::StorageError;
use crate::storage::page::{page_count, page_get};
use vstd::prelude::*;

verus! {

/// A key satisfies a comparison.
pub open spec fn key_hits(op: Op, n: i64, key: Option<i64>) -> bool {
    key matches Some(k) && op_holds(op, rank_of(k as int, n as int))
}

/// The row pointers of the rows whose keys satisfy a comparison.
spec fn hit_rids(schema: SchemaView, op: Op, n: i64, cells: Seq<Cell>) -> Seq<Rid>
    decreases cells.len(),
{
    if cells.len() == 0 {
        Seq::empty()
    } else {
        let before = hit_rids(schema, op, n, cells.drop_last());
        if key_hits(op, n, key_of(schema, cells.last().tuple)) {
            before.push(cells.last().rid)
        } else {
            before
        }
    }
}

/// What the row at `rid` contributes to a selection.
spec fn row_at(db: DbView, table: Seq<char>, filter: ExprView, columns: SelectView) -> spec_fn(
    Rid,
) -> RowView {
    |rid: Rid|
        (tuple_row(
            db.catalog.get(table)->0,
            Some(filter),
            columns,
            tuple_at(db, table, rid)->0,
        )->Ok_0)->0
}

/// Mapping equal collections gives equal collections.
proof fn lemma_map_multiset<A, B>(a: Seq<A>, b: Seq<A>, f: spec_fn(A) -> B)
    requires
        a.to_multiset() == b.to_multiset(),
    ensures
        a.map_values(f).to_multiset() == b.map_values(f).to_multiset(),
    decreases a.len(),
{
    broadcast use vstd::seq_lib::group_to_multiset_ensures;

    if a.len() == 0 {
        assert(b.len() == a.to_multiset().len());
        assert(a.map_values(f) =~= b.map_values(f));
    } else {
        let x = a.last();
        let dl = a.drop_last();
        assert(a =~= dl.push(x));
        assert(a.to_multiset() =~= dl.to_multiset().insert(x));
        assert(b.to_multiset().count(x) > 0);
        assert(b.contains(x));
        let j = choose|j: int| 0 <= j < b.len() && b[j] == x;
        let c = b.remove(j);
        assert(c.to_multiset() =~= b.to_multiset().remove(x));
        assert(dl.to_multiset() =~= c.to_multiset());
        lemma_map_multiset(dl, c, f);
        assert(a.map_values(f) =~= dl.map_values(f).push(f(x)));
        let bf = b.map_values(f);
        assert(bf.remove(j) =~= c.map_values(f));
        assert(bf[j] == f(x));
        assert(bf.contains(f(x)));
        assert(bf.to_multiset().remove(f(x)) =~= c.map_values(f).to_multiset());
        assert(bf.to_multiset().count(f(x)) > 0);
        assert(bf.to_multiset() =~= c.map_values(f).to_multiset().insert(f(x)));
    }
}

/// Two lists without repetitions and with the same members are equal collections.
proof fn lemma_same_members<A>(a: Seq<A>, b: Seq<A>)
    requires
        a.no_duplicates(),
        b.no_duplicates(),
        forall|x: A| #[trigger] a.contains(x) <==> b.contains(x),
    ensures
        a.to_multiset() == b.to_multiset(),
{
    broadcast use vstd::seq_lib::group_to_multiset_ensures;

    a.lemma_multiset_has_no_duplicates();
    b.lemma_multiset_has_no_duplicates();
    let ma = a.to_multiset();
    let mb = b.to_multiset();
    assert forall|x: A| #[trigger] ma.count(x) == mb.count(x) by {
        assert(a.contains(x) <==> b.contains(x));
        assert(a.contains(x) <==> ma.count(x) > 0);
        assert(b.contains(x) <==> mb.count(x) > 0);
        assert(ma.contains(x) ==> ma.count(x) == 1);
        assert(mb.contains(x) ==> mb.count(x) == 1);
    }
    assert(ma =~= mb);
}

/// A comparison of the primary key with an integer selects a row by its key.
proof fn lemma_selects(schema: SchemaView, filter: ExprView, row: RowView)
    requires
        schema.primary_key == Some(filter.left),
        schema.pk_col() is Some,
        filter.right is Int,
        !(filter.op is IsNull),
        !(filter.op is IsNotNull),
        row[schema.pk_col()->0] is Int || row[schema.pk_col()->0] is Null,
    ensures
        selected(schema, row, Some(filter)) == Ok::<bool, Seq<char>>(
            key_hits(filter.op, filter.right->Int_0, key_in(schema, row)),
        ),
{
}

/// Reading rows one after the other gives those whose keys satisfy the comparison.
proof fn lemma_scan_hits(
    db: DbView,
    table: Seq<char>,
    filter: ExprView,
    columns: SelectView,
    cells: Seq<Cell>,
)
    requires
        ({
            let schema = db.catalog.get(table)->0;
            &&& schema.primary_key == Some(filter.left)
            &&& schema.pk_col() is Some
            &&& 0 <= schema.pk_col()->0 < schema.columns.len()
            &&& schema.columns[schema.pk_col()->0].ty == DataType::Int
            &&& cell_rows(schema, Some(filter), columns, cells) is Ok
        }),
        filter.right is Int,
        !(filter.op is IsNull),
        !(filter.op is IsNotNull),
        forall|i: int|
            0 <= i < cells.len() ==> tuple_at(db, table, (#[trigger] cells[i]).rid) == Some(
                cells[i].tuple,
            ),
    ensures
        ({
            let schema = db.catalog.get(table)->0;
            let rids = hit_rids(schema, filter.op, filter.right->Int_0, cells);
            &&& cell_rows(schema, Some(filter), columns, cells) == Ok::<Seq<RowView>, Seq<char>>(
                rids.map_values(row_at(db, table, filter, columns)),
            )
            &&& forall|k: int|
                0 <= k < rids.len() ==> {
                    let t = tuple_at(db, table, #[trigger] rids[k]);
                    &&& t is Some
                    &&& tuple_row(schema, Some(filter), columns, t->0) is Ok
                    &&& tuple_row(schema, Some(filter), columns, t->0)->Ok_0 is Some
                }
        }),
    decreases cells.len(),
{
    let schema = db.catalog.get(table)->0;
    let f = row_at(db, table, filter, columns);
    let n = filter.right->Int_0;
    if cells.len() > 0 {
        let dl = cells.drop_last();
        assert forall|i: int| 0 <= i < dl.len() implies tuple_at(
            db,
            table,
            (#[trigger] dl[i]).rid,
        ) == Some(dl[i].tuple) by {
            assert(dl[i] == cells[i]);
        }
        lemma_scan_hits(db, table, filter, columns, dl);
        let c = cells.last();
        assert(cells[cells.len() - 1] == c);
        let row = deserialized(schema.columns, c.tuple)->Ok_0;
        law_row_fits(schema.columns, c.tuple);
        assert(fits(schema.columns[schema.pk_col()->0].ty, row[schema.pk_col()->0]));
        lemma_selects(schema, filter, row);
        let before = hit_rids(schema, filter.op, n, dl);
        let now = hit_rids(schema, filter.op, n, cells);
        if key_hits(filter.op, n, key_of(schema, c.tuple)) {
            assert(now.map_values(f) =~= before.map_values(f).push(f(c.rid)));
        }
    } else {
        assert(Seq::<Rid>::empty().map_values(f) =~= Seq::empty());
    }
}

/// Following row pointers that lead to selected rows gives those rows.
proof fn lemma_follow(
    db: DbView,
    table: Seq<char>,
    filter: ExprView,
    columns: SelectView,
    rids: Seq<Rid>,
    n: nat,
)
    requires
        n <= rids.len(),
        heap_ok(db),
        table_pages(db.tables, table) is Some,
        forall|k: int|
            0 <= k < rids.len() ==> {
                let schema = db.catalog.get(table)->0;
                let t = tuple_at(db, table, #[trigger] rids[k]);
                &&& t is Some
                &&& tuple_row(schema, Some(filter), columns, t->0) is Ok
                &&& tuple_row(schema, Some(filter), columns, t->0)->Ok_0 is Some
            },
    ensures
        rid_rows(
            db.pages,
            db.catalog.get(table)->0,
            filter,
            columns,
            table_pages(db.tables, table)->0,
            rids,
            n,
        ) == Ok::<Seq<RowView>, Seq<char>>(
            rids.take(n as int).map_values(row_at(db, table, filter, columns)),
        ),
    decreases n,
{
    let f = row_at(db, table, filter, columns);
    if n == 0 {
        assert(rids.take(0).map_values(f) =~= Seq::empty());
    } else {
        lemma_follow(db, table, filter, columns, rids, (n - 1) as nat);
        let rid = rids[n - 1];
        let ids = table_pages(db.tables, table)->0;
        assert(tuple_at(db, table, rid) is Some);
        lemma_good_list(db, table);
        let k = choose|k: int| 0 <= k < ids.len() && ids[k] == rid.page_id;
        assert(page_good(db, ids[k]));
        assert(rids.take(n as int).map_values(f) =~= rids.take(n - 1).map_values(f).push(f(rid)));
    }
}

/// The row pointers of the rows whose keys satisfy a comparison are all of them, each once.
proof fn lemma_hit_members(schema: SchemaView, op: Op, n: i64, cells: Seq<Cell>)
    requires
        forall|i: int, j: int|
            0 <= i < j < cells.len() ==> (#[trigger] cells[i]).rid != (#[trigger] cells[j]).rid,
    ensures
        hit_rids(schema, op, n, cells).no_duplicates(),
        forall|rid: Rid| #[trigger]
            hit_rids(schema, op, n, cells).contains(rid) <==> exists|i: int|
                0 <= i < cells.len() && (#[trigger] cells[i]).rid == rid && key_hits(
                    op,
                    n,
                    key_of(schema, cells[i].tuple),
                ),
    decreases cells.len(),
{
    if cells.len() > 0 {
        let dl = cells.drop_last();
        let c = cells.last();
        let m = cells.len() - 1;
        assert(cells[m] == c);
        assert forall|i: int, j: int| 0 <= i < j < dl.len() implies (#[trigger] dl[i]).rid != (
        #[trigger] dl[j]).rid by {
            assert(cells[i].rid != cells[j].rid);
        }
        lemma_hit_members(schema, op, n, dl);
        let before = hit_rids(schema, op, n, dl);
        let now = hit_rids(schema, op, n, cells);
        let hit = key_hits(op, n, key_of(schema, c.tuple));
        assert(!before.contains(c.rid)) by {
            if before.contains(c.rid) {
                let i = choose|i: int|
                    0 <= i < dl.len() && (#[trigger] dl[i]).rid == c.rid && key_hits(
                        op,
                        n,
                        key_of(schema, dl[i].tuple),
                    );
                assert(cells[i].rid != cells[m].rid);
            }
        }
        assert forall|rid: Rid| #[trigger] now.contains(rid) <==> exists|i: int|
            0 <= i < cells.len() && (#[trigger] cells[i]).rid == rid && key_hits(
                op,
                n,
                key_of(schema, cells[i].tuple),
            ) by {
            assert(now.contains(rid) <==> before.contains(rid) || (hit && rid == c.rid)) by {
                if hit {
                    if before.contains(rid) {
                        let k = choose|k: int| 0 <= k < before.len() && before[k] == rid;
                        assert(now[k] == rid);
                    }
                    assert(now[before.len() as int] == c.rid);
                }
            }
            if before.contains(rid) {
                let i = choose|i: int|
                    0 <= i < dl.len() && (#[trigger] dl[i]).rid == rid && key_hits(
                        op,
                        n,
                        key_of(schema, dl[i].tuple),
                    );
                assert(cells[i].rid == rid);
            }
            if exists|i: int|
                0 <= i < cells.len() && (#[trigger] cells[i]).rid == rid && key_hits(
                    op,
                    n,
                    key_of(schema, cells[i].tuple),
                ) {
                let i = choose|i: int|
                    0 <= i < cells.len() && (#[trigger] cells[i]).rid == rid && key_hits(
                        op,
                        n,
                        key_of(schema, cells[i].tuple),
                    );
                if i < m {
                    assert(dl[i].rid == rid);
                }
            }
        }
    }
}

proof fn lemma_page_holds(id: u32, d: Seq<u8>, n: nat, slot: int) -> (i: int)
    requires
        0 <= slot < n,
        n <= u16::MAX,
        page_get(d, slot) is Some,
    ensures
        0 <= i < page_cells(id, d, n).len(),
        page_cells(id, d, n)[i] == (Cell {
            rid: Rid { page_id: id, slot_id: slot as u16 },
            tuple: page_get(d, slot)->0,
        }),
    decreases n,
{
    let before = page_cells(id, d, (n - 1) as nat);
    if slot == n - 1 {
        before.len() as int
    } else {
        lemma_page_holds(id, d, (n - 1) as nat, slot)
    }
}

proof fn lemma_pages_hold(
    pages: Map<u32, Result<Seq<u8>, StorageError>>,
    ids: Seq<u32>,
    n: nat,
    k: int,
    slot: int,
) -> (i: int)
    requires
        0 <= k < n <= ids.len(),
        0 <= slot,
        page_get(pages[ids[k]]->Ok_0, slot) is Some,
    ensures
        0 <= i < cells_upto(pages, ids, n).len(),
        cells_upto(pages, ids, n)[i] == (Cell {
            rid: Rid { page_id: ids[k], slot_id: slot as u16 },
            tuple: page_get(pages[ids[k]]->Ok_0, slot)->0,
        }),
    decreases n,
{
    let before = cells_upto(pages, ids, (n - 1) as nat);
    if k == n - 1 {
        let d = pages[ids[k]]->Ok_0;
        let j = lemma_page_holds(ids[k], d, page_count(d) as nat, slot);
        before.len() + j
    } else {
        lemma_pages_hold(pages, ids, (n - 1) as nat, k, slot)
    }
}

/// A row that a row pointer leads to is one of the rows of the table.
proof fn lemma_held(db: DbView, table: Seq<char>, rid: Rid) -> (i: int)
    requires
        tuple_at(db, table, rid) is Some,
    ensures
        0 <= i < table_cells(db, table).len(),
        table_cells(db, table)[i] == (Cell { rid, tuple: tuple_at(db, table, rid)->0 }),
{
    let ids = table_pages(db.tables, table)->0;
    let k = choose|k: int| 0 <= k < ids.len() && ids[k] == rid.page_id;
    lemma_pages_hold(db.pages, ids, ids.len(), k, rid.slot_id as int)
}

/// The entries of an index are its links.
proof fn lemma_entry(e: Seq<Entry>, keys: spec_fn(Rid) -> Option<i64>, i: int)
    requires
        linked(e, keys),
        0 <= i < e.len(),
    ensures
        keys(e[i].1) == Some(e[i].0),
{
    let k = e[i].0;
    law_search(e, k);
    assert forall|j: int| 0 <= j < i implies (#[trigger] e[j]).0 != k by {
        assert(e[j].0 != e[i].0);
    }
    assert(rid_of(e, k) == Some(e[i].1));
    assert(keys(e[i].1) == Some(k));
}

proof fn lemma_range_apart(e: Seq<Entry>, start: i64, end: i64)
    requires
        forall|i: int, j: int|
            0 <= i < j < e.len() ==> (#[trigger] e[i]).1 != (#[trigger] e[j]).1,
    ensures
        rids_between(e, start, end).no_duplicates(),
    decreases e.len(),
{
    if e.len() > 0 {
        let dl = e.drop_last();
        let m = e.len() - 1;
        assert forall|i: int, j: int| 0 <= i < j < dl.len() implies (#[trigger] dl[i]).1 != (
        #[trigger] dl[j]).1 by {
            assert(e[i].1 != e[j].1);
        }
        lemma_range_apart(dl, start, end);
        let before = rids_between(dl, start, end);
        assert(!before.contains(e.last().1)) by {
            law_range(dl, start, end, e.last().1);
            if before.contains(e.last().1) {
                let i = choose|i: int|
                    0 <= i < dl.len() && (#[trigger] dl[i]).1 == e.last().1 && start <= dl[i].0
                        <= end;
                assert(e[i].1 != e[m].1);
            }
        }
    }
}

/// The row pointers that an index finds between two keys are those of the rows with such keys, each
/// once.
proof fn lemma_range_members(
    e: Seq<Entry>,
    keys: spec_fn(Rid) -> Option<i64>,
    start: i64,
    end: i64,
)
    requires
        linked(e, keys),
    ensures
        rids_between(e, start, end).no_duplicates(),
        forall|rid: Rid| #[trigger]
            rids_between(e, start, end).contains(rid) <==> (keys(rid) matches Some(k) && start <= k
                <= end),
{
    assert forall|i: int, j: int| 0 <= i < j < e.len() implies (#[trigger] e[i]).1 != (
    #[trigger] e[j]).1 by {
        lemma_entry(e, keys, i);
        lemma_entry(e, keys, j);
        assert(e[i].0 != e[j].0);
    }
    lemma_range_apart(e, start, end);
    assert forall|rid: Rid| #[trigger] rids_between(e, start, end).contains(rid) <==> (keys(
        rid,
    ) matches Some(k) && start <= k <= end) by {
        law_range(e, start, end, rid);
        if rids_between(e, start, end).contains(rid) {
            let i = choose|i: int|
                0 <= i < e.len() && (#[trigger] e[i]).1 == rid && start <= e[i].0 <= end;
            lemma_entry(e, keys, i);
        }
        if let Some(k) = keys(rid) {
            assert(rid_of(e, k) == Some(rid));
            let i = below(e, k) as int;
            assert(e[i].1 == rid && e[i].0 == k);
        }
    }
}

/// What an index on the primary key finds for a comparison: the row pointers of the rows whose keys
/// satisfy it, each once.
proof fn lemma_index_members(db: DbView, table: Seq<char>, filter: ExprView)
    requires
        keyed(db, table),
        (db.catalog.get(table)->0).primary_key == Some(filter.left),
        index_rids(db.indexes, db.catalog.get(table)->0, table, filter) is Some,
    ensures
        ({
            let rids = index_rids(db.indexes, db.catalog.get(table)->0, table, filter)->0;
            &&& rids.no_duplicates()
            &&& forall|rid: Rid| #[trigger]
                rids.contains(rid) <==> key_hits(
                    filter.op,
                    filter.right->Int_0,
                    keys_at(db, table)(rid),
                )
        }),
{
    let rids = index_rids(db.indexes, db.catalog.get(table)->0, table, filter)->0;
    let keys = keys_at(db, table);
    let e = index_get(db.indexes, table, filter.left)->0;
    let n = filter.right->Int_0;
    match filter.op {
        Op::Eq => {
            assert forall|rid: Rid| #[trigger] rids.contains(rid) <==> key_hits(
                filter.op,
                n,
                keys(rid),
            ) by {
                assert(rid_of(e, n) == Some(rid) <==> keys(rid) == Some(n));
                if let Some(r) = rid_of(e, n) {
                    assert(rids[0] == r);
                }
            }
        },
        Op::Gt => {
            if n < i64::MAX {
                lemma_range_members(e, keys, (n + 1) as i64, i64::MAX);
            }
        },
        Op::Ge => lemma_range_members(e, keys, n, i64::MAX),
        Op::Lt => {
            if n > i64::MIN {
                lemma_range_members(e, keys, i64::MIN, (n - 1) as i64);
            }
        },
        Op::Le => lemma_range_members(e, keys, i64::MIN, n),
        _ => {},
    }
    assert forall|rid: Rid| #[trigger] rids.contains(rid) <==> key_hits(
        filter.op,
        n,
        keys(rid),
    ) by {}
}

/// Where an index on the primary key is used, it finds the rows that reading all rows finds,
/// each as often; for `=` it finds the same row. Where all columns are asked for, it can be seen that
/// the rows come in ascending order of the key.
pub proof fn law_index_finds_what_a_scan_finds(
    db: DbView,
    table: Seq<char>,
    columns: SelectView,
    filter: ExprView,
)
    requires
        heap_ok(db),
        keys_ok(db),
        db.catalog.get(table) is Some,
        ({
            let schema = db.catalog.get(table)->0;
            let ids = table_pages(db.tables, table)->0;
            &&& columns_apart(schema.columns)
            &&& schema.primary_key == Some(filter.left)
            &&& scan_pages(db.pages, schema, Some(filter), columns, ids, ids.len()) is Ok
        }),
        index_rids(db.indexes, db.catalog.get(table)->0, table, filter) is Some,
    ensures
        ({
            let schema = db.catalog.get(table)->0;
            let ids = table_pages(db.tables, table)->0;
            let found = found_rows(db, schema, table, columns, Some(filter), ids);
            let read = scan_pages(db.pages, schema, Some(filter), columns, ids, ids.len())->Ok_0;
            &&& found is Ok
            &&& found->Ok_0.to_multiset() == read.to_multiset()
            &&& filter.op is Eq ==> found->Ok_0 == read
            &&& columns is Star ==> keys_ascend(schema, found->Ok_0)
        }),
{
    let schema = db.catalog.get(table)->0;
    let n = filter.right->Int_0;
    lemma_listed(db, table);
    lemma_key_column(table, schema.columns);
    lemma_good_list(db, table);
    lemma_table_cells(db, table);
    let ids = table_pages(db.tables, table)->0;
    assert forall|k: int| 0 <= k < ids.len() implies db.pages[#[trigger] ids[k]] is Ok by {
        assert(page_good(db, ids[k]));
    }
    lemma_scan_pages(db.pages, schema, Some(filter), columns, ids, ids.len());
    let cells = table_cells(db, table);
    lemma_scan_hits(db, table, filter, columns, cells);
    lemma_hit_members(schema, filter.op, n, cells);
    assert(keyed(db, table));
    lemma_index_members(db, table, filter);
    let a = index_rids(db.indexes, schema, table, filter)->0;
    let b = hit_rids(schema, filter.op, n, cells);
    let keys = keys_at(db, table);
    assert forall|rid: Rid| #[trigger] a.contains(rid) <==> b.contains(rid) by {
        if a.contains(rid) {
            let i = lemma_held(db, table, rid);
            assert(cells[i].rid == rid);
        }
        if b.contains(rid) {
            let i = choose|i: int|
                0 <= i < cells.len() && (#[trigger] cells[i]).rid == rid && key_hits(
                    filter.op,
                    n,
                    key_of(schema, cells[i].tuple),
                );
            assert(keys(rid) == key_of(schema, cells[i].tuple));
        }
    }
    lemma_same_members(a, b);
    lemma_found(db, table, columns, filter, a, b);
    if columns is Star {
        let f = row_at(db, table, filter, columns);
        let rows = a.map_values(f);
        lemma_index_ascends(db, table, filter);
        assert forall|i: int| 0 <= i < rows.len() implies ascends_from(schema, keys(a[i]), #[trigger] rows[i]) by {
            let rid = a[i];
            assert(a.contains(rid));
            assert(b.contains(rid));
            let j = choose|j: int| 0 <= j < b.len() && b[j] == rid;
            let t = tuple_at(db, table, b[j]);
            assert(t is Some);
            let row = deserialized(schema.columns, t->0)->Ok_0;
            assert(rows[i] == row);
            assert(keys(rid) is Some);
        }
        assert(keys_ascend(schema, rows)) by {
            assert forall|i: int, j: int| 0 <= i < j < rows.len() implies key_before(
                schema,
                #[trigger] rows[i],
                #[trigger] rows[j],
            ) by {
                assert(ascends_from(schema, keys(a[i]), rows[i]));
                assert(ascends_from(schema, keys(a[j]), rows[j]));
                assert(keys(a[i])->0 < keys(a[j])->0);
            }
        }
    }
}

/// A row has this integer as its primary key.
spec fn ascends_from(schema: SchemaView, key: Option<i64>, row: RowView) -> bool {
    key matches Some(k) && row[schema.pk_col()->0] == ValueView::Int(k)
}

/// The primary keys of two rows are integers, and the first is less.
pub open spec fn key_before(schema: SchemaView, a: RowView, b: RowView) -> bool {
    let c = schema.pk_col()->0;
    a[c] matches ValueView::Int(k) && (b[c] matches ValueView::Int(l) && k < l)
}

/// Rows in ascending order of their primary keys.
pub open spec fn keys_ascend(schema: SchemaView, rows: Seq<RowView>) -> bool {
    forall|i: int, j: int|
        0 <= i < j < rows.len() ==> key_before(schema, #[trigger] rows[i], #[trigger] rows[j])
}

/// The row pointers between two keys come in ascending order of the keys.
proof fn lemma_range_ascends(
    e: Seq<Entry>,
    keys: spec_fn(Rid) -> Option<i64>,
    start: i64,
    end: i64,
)
    requires
        forall|i: int| 0 <= i < e.len() ==> keys((#[trigger] e[i]).1) == Some(e[i].0),
        forall|i: int, j: int| 0 <= i < j < e.len() ==> (#[trigger] e[i]).0 < (#[trigger] e[j]).0,
    ensures
        forall|i: int| 0 <= i < rids_between(e, start, end).len() ==> keys(
            #[trigger] rids_between(e, start, end)[i],
        ) is Some,
        forall|i: int, j: int|
            0 <= i < j < rids_between(e, start, end).len() ==> keys(
                #[trigger] rids_between(e, start, end)[i],
            )->0 < keys(#[trigger] rids_between(e, start, end)[j])->0,
    decreases e.len(),
{
    if e.len() > 0 {
        let dl = e.drop_last();
        let m = e.len() - 1;
        assert forall|i: int| 0 <= i < dl.len() implies keys((#[trigger] dl[i]).1) == Some(
            dl[i].0,
        ) by {
            assert(keys(e[i].1) == Some(e[i].0));
        }
        assert forall|i: int, j: int| 0 <= i < j < dl.len() implies (#[trigger] dl[i]).0 < (
        #[trigger] dl[j]).0 by {
            assert(e[i].0 < e[j].0);
        }
        lemma_range_ascends(dl, keys, start, end);
        let before = rids_between(dl, start, end);
        let now = rids_between(e, start, end);
        assert(keys(e[m].1) == Some(e[m].0));
        assert forall|i: int| 0 <= i < before.len() implies (keys(
            #[trigger] before[i],
        ) matches Some(k) && k < e[m].0) by {
            law_range(dl, start, end, before[i]);
            assert(before.contains(before[i]));
            let j = choose|j: int|
                0 <= j < dl.len() && (#[trigger] dl[j]).1 == before[i] && start <= dl[j].0 <= end;
            assert(keys(dl[j].1) == Some(dl[j].0));
            assert(e[j].0 < e[m].0);
        }
        assert forall|i: int| 0 <= i < now.len() implies keys(#[trigger] now[i]) is Some by {
            if i < before.len() {
                assert(now[i] == before[i]);
            }
        }
        assert forall|i: int, j: int| 0 <= i < j < now.len() implies keys(
            #[trigger] now[i],
        )->0 < keys(#[trigger] now[j])->0 by {
            assert(now[i] == before[i]);
            if j < before.len() {
                assert(now[j] == before[j]);
            }
        }
    }
}

/// What an index on the primary key finds comes in ascending order of the keys.
proof fn lemma_index_ascends(db: DbView, table: Seq<char>, filter: ExprView)
    requires
        keyed(db, table),
        (db.catalog.get(table)->0).primary_key == Some(filter.left),
        index_rids(db.indexes, db.catalog.get(table)->0, table, filter) is Some,
    ensures
        ({
            let rids = index_rids(db.indexes, db.catalog.get(table)->0, table, filter)->0;
            let keys = keys_at(db, table);
            forall|i: int, j: int|
                0 <= i < j < rids.len() ==> keys(#[trigger] rids[i])->0 < keys(#[trigger] rids[j])->0
        }),
{
    let keys = keys_at(db, table);
    let e = index_get(db.indexes, table, filter.left)->0;
    let n = filter.right->Int_0;
    assert forall|i: int| 0 <= i < e.len() implies keys((#[trigger] e[i]).1) == Some(e[i].0) by {
        lemma_entry(e, keys, i);
    }
    assert forall|i: int, j: int| 0 <= i < j < e.len() implies (#[trigger] e[i]).0 < (
    #[trigger] e[j]).0 by {
        assert(e[i].0 <= e[j].0 && e[i].0 != e[j].0);
    }
    match filter.op {
        Op::Gt => {
            if n < i64::MAX {
                lemma_range_ascends(e, keys, (n + 1) as i64, i64::MAX);
            }
        },
        Op::Ge => lemma_range_ascends(e, keys, n, i64::MAX),
        Op::Lt => {
            if n > i64::MIN {
                lemma_range_ascends(e, keys, i64::MIN, (n - 1) as i64);
            }
        },
        Op::Le => lemma_range_ascends(e, keys, i64::MIN, n),
        _ => {},
    }
}

proof fn lemma_found(
    db: DbView,
    table: Seq<char>,
    columns: SelectView,
    filter: ExprView,
    a: Seq<Rid>,
    b: Seq<Rid>,
)
    requires
        heap_ok(db),
        table_pages(db.tables, table) is Some,
        a.to_multiset() == b.to_multiset(),
        forall|rid: Rid| #[trigger] a.contains(rid) <==> b.contains(rid),
        filter.op is Eq ==> a.len() <= 1,
        forall|k: int|
            0 <= k < b.len() ==> {
                let t = tuple_at(db, table, #[trigger] b[k]);
                let schema = db.catalog.get(table)->0;
                &&& t is Some
                &&& tuple_row(schema, Some(filter), columns, t->0) is Ok
                &&& tuple_row(schema, Some(filter), columns, t->0)->Ok_0 is Some
            },
    ensures
        ({
            let f = row_at(db, table, filter, columns);
            let found = rid_rows(
                db.pages,
                db.catalog.get(table)->0,
                filter,
                columns,
                table_pages(db.tables, table)->0,
                a,
                a.len(),
            );
            &&& found is Ok
            &&& found->Ok_0 == a.map_values(f)
            &&& found->Ok_0.to_multiset() == b.map_values(f).to_multiset()
            &&& filter.op is Eq ==> found->Ok_0 == b.map_values(f)
        }),
{
    let f = row_at(db, table, filter, columns);
    assert forall|k: int| 0 <= k < a.len() implies {
        let t = tuple_at(db, table, #[trigger] a[k]);
        let schema = db.catalog.get(table)->0;
        &&& t is Some
        &&& tuple_row(schema, Some(filter), columns, t->0) is Ok
        &&& tuple_row(schema, Some(filter), columns, t->0)->Ok_0 is Some
    } by {
        assert(a.contains(a[k]));
        let j = choose|j: int| 0 <= j < b.len() && b[j] == a[k];
        assert(tuple_at(db, table, b[j]) is Some);
    }
    lemma_follow(db, table, filter, columns, a, a.len());
    assert(a.take(a.len() as int) =~= a);
    lemma_map_multiset(a, b, f);
    if filter.op is Eq {
        broadcast use vstd::seq_lib::group_to_multiset_ensures;

        assert(a.len() == a.to_multiset().len());
        assert(b.len() == b.to_multiset().len());
        if a.len() == 1 {
            assert(a.contains(a[0]));
            assert(b.contains(a[0]));
        }
        assert(a =~= b);
    }
}

} // verus!
