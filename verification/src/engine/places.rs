//! Where new rows go, and what the indexes of columns find.
use crate::engine::index_manager::{
    index_at, index_create, index_delete, index_get, index_has, index_insert, index_range,
    index_search, indexes_wf, lemma_index_at, IndexView,
};
use crate::engine::model::{place_for, Place};
use crate::index::btree::{law_delete, law_insert, sorted, unique, Entry};
use crate::index::entries::law_range_is_in_order;
use crate::index::node::Rid;
use crate::storage::error::StorageError;
use crate::storage::page::{law_fits, page_fits, page_wf};
use vstd::prelude::*;

verus! {

// Pages.

/// Page `k` of the list can be read and has no room for a tuple of this length.
pub open spec fn is_full(
    pages: Map<u32, Result<Seq<u8>, StorageError>>,
    ids: Seq<u32>,
    len: nat,
    k: int,
) -> bool {
    pages[ids[k]] matches Ok(d) && !page_fits(d, len)
}

/// A row goes into the first page of the table that has room for it, into a new page if none has; and
/// nowhere if a page before that cannot be read.
pub proof fn law_row_goes_to_the_first_page_with_room(
    pages: Map<u32, Result<Seq<u8>, StorageError>>,
    ids: Seq<u32>,
    len: nat,
    i: int,
) -> (k: int)
    requires
        0 <= i <= ids.len(),
        forall|j: int|
            0 <= j < ids.len() ==> ((#[trigger] pages[ids[j]]) matches Ok(d) ==> page_wf(d)),
    ensures
        i <= k <= ids.len(),
        forall|j: int| i <= j < k ==> #[trigger] is_full(pages, ids, len, j),
        match place_for(pages, ids, len, i) {
            Place::At(id) => k < ids.len() && ids[k] == id && (pages[id] matches Ok(d) && page_fits(
                d,
                len,
            )),
            Place::New => k == ids.len(),
            Place::Fault(id, e) => k < ids.len() && ids[k] == id && pages[id] == Err::<
                Seq<u8>,
                StorageError,
            >(e),
        },
    decreases ids.len() - i,
{
    if i < ids.len() {
        let p = pages[ids[i]];
        match p {
            Err(_) => i,
            Ok(d) => {
                law_fits(d, len);
                if page_fits(d, len) {
                    i
                } else {
                    let k = law_row_goes_to_the_first_page_with_room(pages, ids, len, i + 1);
                    assert(is_full(pages, ids, len, i));
                    k
                }
            },
        }
    } else {
        i
    }
}

// Indexes.

/// A new index has no entries; the others stay as they were. To create one that is there changes
/// nothing.
pub proof fn law_new_index_is_empty(
    v: Seq<IndexView>,
    table: Seq<char>,
    column: Seq<char>,
    t: Seq<char>,
    c: Seq<char>,
)
    ensures
        index_has(v, table, column) ==> index_create(v, table, column) == v,
        index_has(index_create(v, table, column), table, column),
        !index_has(v, table, column) ==> index_get(index_create(v, table, column), table, column)
            == Some(Seq::<Entry>::empty()),
        t != table || c != column ==> index_get(index_create(v, table, column), t, c) == index_get(
            v,
            t,
            c,
        ),
{
    let u = index_create(v, table, column);
    lemma_index_at(v, table, column, 0);
    lemma_index_at(u, table, column, 0);
    lemma_index_at(v, t, c, 0);
    lemma_index_at(u, t, c, 0);
    if !index_has(v, table, column) {
        let n = v.len() as int;
        assert(u[n].table == table && u[n].column == column);
        assert forall|i: int| 0 <= i < n implies #[trigger] u[i] == v[i] by {}
        if let Some(i) = index_at(u, table, column, 0) {
            if i < n {
                assert(u[i] == v[i]);
            }
        }
        if t != table || c != column {
            lemma_same_place(v, u, t, c);
        }
    }
}

proof fn lemma_first_index(v: Seq<IndexView>, t: Seq<char>, c: Seq<char>, i: int)
    requires
        0 <= i,
    ensures
        index_at(v, t, c, i) matches Some(k) ==> forall|j: int|
            i <= j < k ==> (#[trigger] v[j]).table != t || v[j].column != c,
    decreases v.len() - i,
{
    if i < v.len() && !(v[i].table == t && v[i].column == c) {
        lemma_first_index(v, t, c, i + 1);
    }
}

/// Where two lists of indexes agree on the names, the same index is found.
proof fn lemma_same_place(v: Seq<IndexView>, u: Seq<IndexView>, t: Seq<char>, c: Seq<char>)
    requires
        v.len() <= u.len(),
        forall|i: int|
            0 <= i < v.len() ==> (#[trigger] u[i]).table == v[i].table && u[i].column == v[i].column,
        forall|i: int| v.len() <= i < u.len() ==> (#[trigger] u[i]).table != t || u[i].column != c,
    ensures
        index_at(u, t, c, 0) == index_at(v, t, c, 0),
{
    lemma_index_at(v, t, c, 0);
    lemma_index_at(u, t, c, 0);
    lemma_first_index(v, t, c, 0);
    lemma_first_index(u, t, c, 0);
    if let Some(i) = index_at(v, t, c, 0) {
        assert(u[i].table == t && u[i].column == c);
        if let Some(j) = index_at(u, t, c, 0) {
            if j < i {
                assert(v[j].table == t && v[j].column == c);
            }
        }
    } else if let Some(j) = index_at(u, t, c, 0) {
        assert(j < v.len());
        assert(v[j].table == t && v[j].column == c);
    }
}

/// A key that was put into the index of a column leads to its row, and everything else is found as
/// before: other keys, and all keys of other columns and tables. Without an index on the column
/// nothing changes.
pub proof fn law_indexed_key_is_found(
    v: Seq<IndexView>,
    table: Seq<char>,
    column: Seq<char>,
    key: i64,
    rid: Rid,
    t: Seq<char>,
    c: Seq<char>,
    k: i64,
)
    requires
        indexes_wf(v),
    ensures
        ({
            let u = index_insert(v, table, column, key, rid);
            &&& index_has(u, t, c) == index_has(v, t, c)
            &&& index_has(v, table, column) ==> index_search(u, table, column, key) == Some(rid)
            &&& !index_has(v, table, column) ==> u == v
            &&& t != table || c != column || k != key ==> index_search(u, t, c, k) == index_search(
                v,
                t,
                c,
                k,
            )
        }),
{
    let u = index_insert(v, table, column, key, rid);
    lemma_index_at(v, table, column, 0);
    lemma_index_at(v, t, c, 0);
    if let Some(i) = index_at(v, table, column, 0) {
        assert forall|j: int| 0 <= j < v.len() implies (#[trigger] u[j]).table == v[j].table
            && u[j].column == v[j].column by {}
        lemma_same_place(v, u, table, column);
        lemma_same_place(v, u, t, c);
        assert(sorted(v[i].entries));
        law_insert(v[i].entries, key, rid, k);
    }
}

/// A key that was taken out of the index of a column leads nowhere, if it was there once, and
/// everything else is found as before.
pub proof fn law_unindexed_key_is_gone(
    v: Seq<IndexView>,
    table: Seq<char>,
    column: Seq<char>,
    key: i64,
    t: Seq<char>,
    c: Seq<char>,
    k: i64,
)
    requires
        indexes_wf(v),
    ensures
        ({
            let u = index_delete(v, table, column, key);
            &&& index_has(u, t, c) == index_has(v, t, c)
            &&& (index_get(v, table, column) matches Some(e) ==> unique(e)) ==> index_search(
                u,
                table,
                column,
                key,
            ) is None
            &&& !index_has(v, table, column) ==> u == v
            &&& t != table || c != column || k != key ==> index_search(u, t, c, k) == index_search(
                v,
                t,
                c,
                k,
            )
        }),
{
    let u = index_delete(v, table, column, key);
    lemma_index_at(v, table, column, 0);
    lemma_index_at(v, t, c, 0);
    if let Some(i) = index_at(v, table, column, 0) {
        assert forall|j: int| 0 <= j < v.len() implies (#[trigger] u[j]).table == v[j].table
            && u[j].column == v[j].column by {}
        lemma_same_place(v, u, table, column);
        lemma_same_place(v, u, t, c);
        assert(sorted(v[i].entries));
        law_delete(v[i].entries, key, k);
    }
}

/// A range over the index of a column gives the rows of the entries whose keys lie in it, in ascending
/// order of the keys; without an index it gives none.
pub proof fn law_index_range_is_in_order(
    v: Seq<IndexView>,
    table: Seq<char>,
    column: Seq<char>,
    start: i64,
    end: i64,
    i: int,
)
    requires
        indexes_wf(v),
        0 <= i < v.len(),
    ensures
        v[i].table == table && v[i].column == column ==> sorted(v[i].entries) && index_range(
            v,
            table,
            column,
            start,
            end,
        ) == v[i].entries.filter(|x: Entry| start <= x.0 && x.0 <= end).map_values(|x: Entry| x.1),
        (forall|j: int|
            0 <= j < v.len() ==> (#[trigger] v[j]).table != table || v[j].column != column)
            ==> index_range(v, table, column, start, end).len() == 0,
{
    lemma_index_at(v, table, column, 0);
    if v[i].table == table && v[i].column == column {
        law_range_is_in_order(v[i].entries, start, end);
        let j = index_at(v, table, column, 0)->0;
        if j < i {
            assert(v[j].table != v[i].table || v[j].column != v[i].column);
        }
    }
    if let Some(j) = index_at(v, table, column, 0) {
        assert(v[j].table == table && v[j].column == column);
    }
}

} // verus!
