//! The pages of a table, read and changed through the buffer pool.
use crate::buffer::buffer_pool::{
    dirty_within, law_file_grows, law_look, law_visit, law_visit_new, pool_contents, pool_fetch,
    pool_idle, pool_new, pool_set, pool_unpin, pool_wf, BufferPool, PoolView,
};
use crate::engine::catalog::{column_names, law_row_fits, lemma_position, Schema};
use crate::engine::index_manager::IndexManager;
use crate::engine::model::{
    index_load_row, index_load_slots, key_held, log_takes, msg_fetch, page_has_key, scan_slots,
    slot_for, slot_has_key, slot_row, survey_pages, survey_slots, sweep_slots, Sweep, Work,
};
use crate::engine::rows::{read_tuple, rows_view, scan_page, Row};
use crate::engine::sweep::{key_on_page, set_view, survey_page, sweep_page};
use crate::index::node::Rid;
use crate::recovery::wal::{page_try_put, wal_insert, WalManager};
use crate::sql::ast::{filter_view, values_view, Assignment, Expr, SelectColumns, Value};
use crate::storage::disk_manager::{disk_grew, lemma_disk_grew};
use crate::storage::error::{storage_message, StorageError};
use crate::storage::page::{
    law_body_insert, law_body_reads, page_blank, page_body, page_count, page_fits, page_room,
    PAGE_SIZE, Page, PageView,
};
use crate::text::{dec_u64, join2, join4};
use vstd::prelude::*;

verus! {

/// The pool can be used: it has frames and none of them is pinned.
pub open spec fn pool_ready(p: PoolView) -> bool {
    &&& pool_wf(p)
    &&& pool_idle(p)
    &&& p.frames.len() > 0
}

/// From `p` to `q` no page changed, nor did the file lose one.
pub open spec fn pages_kept(p: PoolView, q: PoolView) -> bool {
    &&& pool_ready(q)
    &&& q.disk.num_pages == p.disk.num_pages
    &&& pool_contents(q) == pool_contents(p)
    &&& forall|ids: Seq<u32>| #[trigger] dirty_within(p, ids) ==> dirty_within(q, ids)
    &&& disk_grew(p.disk, q.disk)
}

/// From `p` to `q` page `id` became `d` and no other page changed. Unless the file holds it already
/// it is dirty, and no other page became dirty.
pub open spec fn page_changed(p: PoolView, q: PoolView, id: u32, d: Seq<u8>) -> bool {
    &&& pool_ready(q)
    &&& q.disk.num_pages == p.disk.num_pages
    &&& pool_contents(q) == pool_contents(p).insert(id, Ok(d))
    &&& forall|ids: Seq<u32>| #[trigger] dirty_within(p, ids) ==> dirty_within(q, ids.push(id))
    &&& disk_grew(p.disk, q.disk)
}

/// From `p` to `q` a page was allocated, which holds `d`.
pub open spec fn page_added(p: PoolView, q: PoolView, d: Seq<u8>) -> bool {
    let id = p.disk.num_pages;
    &&& pool_ready(q)
    &&& q.disk.num_pages == id + 1
    &&& pool_contents(q) == pool_contents(p).insert(id, Ok(d))
    &&& forall|ids: Seq<u32>| #[trigger] dirty_within(p, ids) ==> dirty_within(q, ids.push(id))
    &&& disk_grew(p.disk, q.disk)
}

/// Pages that were kept before a step are kept, or changed, as the step does.
pub proof fn lemma_kept(p: PoolView, q: PoolView, r: PoolView)
    requires
        pages_kept(p, q),
    ensures
        pages_kept(q, r) ==> pages_kept(p, r),
        forall|id: u32, d: Seq<u8>| #[trigger]
            page_changed(q, r, id, d) ==> page_changed(p, r, id, d),
{
    if disk_grew(q.disk, r.disk) {
        lemma_disk_grew(p.disk, q.disk, r.disk);
    }
}

/// The message for a page that cannot be read.
fn fetch_text(id: u32, e: StorageError) -> (s: String)
    ensures
        s@ == msg_fetch(id, e),
{
    let n = dec_u64(id as u64);
    let m = e.message();
    join4("fetch page ", n.as_str(), ": ", m.as_str())
}

proof fn lemma_looked(p: PoolView, id: u32)
    requires
        pool_ready(p),
    ensures
        match pool_fetch(p, id).1 {
            Err(_) => pages_kept(p, pool_fetch(p, id).0),
            Ok(i) => pages_kept(p, pool_unpin(pool_fetch(p, id).0, i, false)),
        },
{
    law_look(p, id, Seq::empty());
    law_file_grows(p, id);
    let (q, res) = pool_fetch(p, id);
    match res {
        Err(_) => {
            assert forall|ids: Seq<u32>| #[trigger] dirty_within(p, ids) implies dirty_within(
                q,
                ids,
            ) by {
                law_look(p, id, ids);
            }
        },
        Ok(i) => {
            let s = pool_unpin(q, i, false);
            assert forall|ids: Seq<u32>| #[trigger] dirty_within(p, ids) implies dirty_within(
                s,
                ids,
            ) by {
                law_look(p, id, ids);
            }
        },
    }
}

proof fn lemma_visited(p: PoolView, id: u32, page: PageView)
    requires
        pool_ready(p),
        pool_fetch(p, id).1 is Ok,
        page.id == id,
        page.data.len() == PAGE_SIZE,
    ensures
        ({
            let (q, res) = pool_fetch(p, id);
            let i = res->Ok_0;
            let r = pool_set(q, i as int, page);
            &&& pool_wf(r)
            &&& page_changed(p, pool_unpin(r, i, true), id, page_body(page.data))
        }),
{
    law_visit(p, id, page, true, Seq::empty());
    law_file_grows(p, id);
    let (q, res) = pool_fetch(p, id);
    let i = res->Ok_0;
    let r = pool_set(q, i as int, page);
    let s = pool_unpin(r, i, true);
    assert forall|ids: Seq<u32>| #[trigger] dirty_within(p, ids) implies dirty_within(
        s,
        ids.push(id),
    ) by {
        law_visit(p, id, page, true, ids);
    }
}

proof fn lemma_visited_new(p: PoolView, page: PageView)
    requires
        pool_ready(p),
        p.disk.num_pages < u32::MAX,
        page.id == p.disk.num_pages,
        page.data.len() == PAGE_SIZE,
    ensures
        ({
            let (q, res) = pool_new(p);
            let i = (res->Ok_0).1;
            let r = pool_set(q, i as int, page);
            &&& pool_wf(r)
            &&& page_added(p, pool_unpin(r, i, true), page_body(page.data))
        }),
{
    law_visit_new(p, page, Seq::empty());
    law_file_grows(p, page.id);
    let (q, res) = pool_new(p);
    let i = (res->Ok_0).1;
    let r = pool_set(q, i as int, page);
    let s = pool_unpin(r, i, true);
    assert forall|ids: Seq<u32>| #[trigger] dirty_within(p, ids) implies dirty_within(
        s,
        ids.push(page.id),
    ) by {
        law_visit_new(p, page, ids);
    }
}

/// Appends the selected rows of page `id`.
pub fn scan_heap_page(
    pool: &mut BufferPool,
    id: u32,
    schema: &Schema,
    filter: &Option<Expr>,
    columns: &SelectColumns,
    rows: &mut Vec<Row>,
) -> (res: Result<(), String>)
    requires
        pool_ready(old(pool)@),
    ensures
        pages_kept(old(pool)@, final(pool)@),
        match pool_contents(old(pool)@)[id] {
            Err(e) => res is Err && (res->Err_0)@ == msg_fetch(id, e),
            Ok(d) => match (
                res,
                scan_slots(
                    schema@,
                    filter_view(*filter),
                    columns@,
                    d,
                    rows_view(old(rows)@),
                    page_count(d) as nat,
                ),
            ) {
                (Ok(_), Ok(v)) => rows_view(final(rows)@) == v,
                (Err(e), Err(t)) => e@ == t,
                _ => false,
            },
        },
{
    let ghost p = pool@;
    proof {
        law_look(p, id, Seq::empty());
        lemma_looked(p, id);
    }
    match pool.fetch_page(id) {
        Err(e) => Err(fetch_text(id, e)),
        Ok(frame) => {
            let res = match pool.get_page(frame) {
                Some(page) => scan_page(page, schema, filter, columns, rows),
                None => Ok(()),
            };
            pool.unpin(frame, false);
            res
        },
    }
}

/// Reads the row that a row pointer leads to; gives the selected columns if the row is there and is
/// selected.
pub fn read_rid(
    pool: &mut BufferPool,
    rid: Rid,
    schema: &Schema,
    filter: &Option<Expr>,
    columns: &SelectColumns,
) -> (res: Result<Option<Row>, String>)
    requires
        pool_ready(old(pool)@),
    ensures
        pages_kept(old(pool)@, final(pool)@),
        match pool_contents(old(pool)@)[rid.page_id] {
            Err(e) => res is Err && (res->Err_0)@ == msg_fetch(rid.page_id, e),
            Ok(d) => match (
                res,
                slot_row(schema@, filter_view(*filter), columns@, d, rid.slot_id as int),
            ) {
                (Ok(Some(r)), Ok(Some(v))) => values_view(r@) == v,
                (Ok(None), Ok(None)) => true,
                (Err(e), Err(t)) => e@ == t,
                _ => false,
            },
        },
{
    let ghost p = pool@;
    proof {
        law_look(p, rid.page_id, Seq::empty());
        lemma_looked(p, rid.page_id);
    }
    match pool.fetch_page(rid.page_id) {
        Err(e) => Err(fetch_text(rid.page_id, e)),
        Ok(frame) => {
            let res = match pool.get_page(frame) {
                Some(page) => {
                    match page.copy_tuple(rid.slot_id) {
                        Some(t) => read_tuple(schema, filter, columns, t.as_slice()),
                        None => Ok(None),
                    }
                },
                None => Ok(None),
            };
            pool.unpin(frame, false);
            res
        },
    }
}

/// Tells whether some row of page `id` has a primary key that is equal to `v`. A page that cannot be
/// read has none.
pub fn key_on_heap_page(
    pool: &mut BufferPool,
    id: u32,
    schema: &Schema,
    key_index: usize,
    v: &Value,
) -> (found: bool)
    requires
        pool_ready(old(pool)@),
        schema@.pk_col() == Some(key_index as int),
        key_index < schema@.columns.len(),
    ensures
        pages_kept(old(pool)@, final(pool)@),
        found == exists|i: int| #[trigger]
            slot_has_key(pool_contents(old(pool)@), schema@, id, i, v@),
{
    let ghost p = pool@;
    let ghost pages = pool_contents(p);
    proof {
        law_look(p, id, Seq::empty());
        lemma_looked(p, id);
    }
    match pool.fetch_page(id) {
        Err(_) => {
            assert(forall|i: int| !#[trigger] slot_has_key(pages, schema@, id, i, v@));
            false
        },
        Ok(frame) => {
            let found = match pool.get_page(frame) {
                Some(page) => {
                    let b = key_on_page(page, schema, key_index, v);
                    proof {
                        let d = page_body(page.data@);
                        assert(pages[id] == Ok::<Seq<u8>, StorageError>(d));
                        assert forall|i: int| #[trigger]
                            slot_has_key(pages, schema@, id, i, v@) == page_has_key(
                                schema@,
                                d,
                                i,
                                v@,
                            ) by {}
                        if b {
                            let i = choose|i: int| #[trigger] page_has_key(schema@, d, i, v@);
                            assert(slot_has_key(pages, schema@, id, i, v@));
                        }
                    }
                    b
                },
                None => false,
            };
            pool.unpin(frame, false);
            found
        },
    }
}

/// Judges the rows of page `id`, as `survey_page` does.
pub fn survey_heap_page(
    pool: &mut BufferPool,
    id: u32,
    schema: &Schema,
    filter: &Option<Expr>,
    set: Option<&Vec<Assignment>>,
    dups: &Vec<bool>,
    given: bool,
    Ghost(s): Ghost<Sweep>,
) -> (res: Result<bool, String>)
    requires
        pool_ready(old(pool)@),
        s.schema == schema@,
        s.filter == filter_view(*filter),
        s.set == set_view(set),
        s.dups == dups@,
        set matches Some(v) ==> dups@.len() == v@.len(),
        schema@.primary_key is Some ==> schema@.pk_col() is Some,
    ensures
        pages_kept(old(pool)@, final(pool)@),
        match pool_contents(old(pool)@)[id] {
            Err(e) => res is Err && (res->Err_0)@ == msg_fetch(id, e),
            Ok(d) => match (res, survey_slots(s, given, d, page_count(d) as nat)) {
                (Ok(a), Ok(b)) => a == b,
                (Err(e), Err(t)) => e@ == t,
                _ => false,
            },
        },
{
    let ghost p = pool@;
    proof {
        law_look(p, id, Seq::empty());
        lemma_looked(p, id);
    }
    match pool.fetch_page(id) {
        Err(e) => Err(fetch_text(id, e)),
        Ok(frame) => {
            let res = match pool.get_page(frame) {
                Some(page) => survey_page(page, schema, filter, set, dups, given, Ghost(s)),
                None => Ok(given),
            };
            pool.unpin(frame, false);
            res
        },
    }
}

/// Tells whether some row in the pages `ids` has a primary key that is equal to `v`.
pub fn key_in_pages(
    pool: &mut BufferPool,
    schema: &Schema,
    ids: &Vec<u32>,
    key_index: usize,
    v: &Value,
) -> (found: bool)
    requires
        pool_ready(old(pool)@),
        schema@.pk_col() == Some(key_index as int),
        key_index < schema@.columns.len(),
    ensures
        pages_kept(old(pool)@, final(pool)@),
        found == key_held(pool_contents(old(pool)@), schema@, ids@, v@),
{
    let ghost p = pool@;
    let ghost pages = pool_contents(p);
    let mut k: usize = 0;
    while k < ids.len()
        invariant
            k <= ids@.len(),
            pool_ready(p),
            pages_kept(p, pool@),
            p == old(pool)@,
            pages == pool_contents(p),
            schema@.pk_col() == Some(key_index as int),
            key_index < schema@.columns.len(),
            forall|j: int, i: int|
                0 <= j < k ==> !#[trigger] slot_has_key(pages, schema@, ids@[j], i, v@),
        decreases ids@.len() - k,
    {
        let ghost q = pool@;
        let found = key_on_heap_page(pool, ids[k], schema, key_index, v);
        proof {
            lemma_kept(p, q, pool@);
        }
        if found {
            proof {
                let i = choose|i: int| #[trigger]
                    slot_has_key(pages, schema@, ids@[k as int], i, v@);
                assert(slot_has_key(pages, schema@, ids@[k as int], i, v@));
            }
            return true;
        }
        assert forall|j: int, i: int| 0 <= j < k + 1 implies !#[trigger] slot_has_key(
            pages,
            schema@,
            ids@[j],
            i,
            v@,
        ) by {}
        k = k + 1;
    }
    false
}

proof fn lemma_survey_stops(
    pages: Map<u32, Result<Seq<u8>, StorageError>>,
    s: Sweep,
    ids: Seq<u32>,
    n: nat,
    m: nat,
)
    requires
        n <= m,
        survey_pages(pages, s, ids, n) is Err,
    ensures
        survey_pages(pages, s, ids, m) == survey_pages(pages, s, ids, n),
    decreases m,
{
    if n < m {
        lemma_survey_stops(pages, s, ids, n, (m - 1) as nat);
    }
}

/// Judges the rows in the pages `ids`. Tells whether one of them is to be changed, or why the
/// statement fails.
pub fn survey_table(
    pool: &mut BufferPool,
    ids: &Vec<u32>,
    schema: &Schema,
    filter: &Option<Expr>,
    set: Option<&Vec<Assignment>>,
    dups: &Vec<bool>,
    Ghost(s): Ghost<Sweep>,
) -> (res: Result<bool, String>)
    requires
        pool_ready(old(pool)@),
        s.schema == schema@,
        s.filter == filter_view(*filter),
        s.set == set_view(set),
        s.dups == dups@,
        set matches Some(v) ==> dups@.len() == v@.len(),
        schema@.primary_key is Some ==> schema@.pk_col() is Some,
    ensures
        pages_kept(old(pool)@, final(pool)@),
        match (res, survey_pages(pool_contents(old(pool)@), s, ids@, ids@.len())) {
            (Ok(a), Ok(b)) => a == b,
            (Err(e), Err(t)) => e@ == t,
            _ => false,
        },
{
    let ghost p = pool@;
    let ghost pages = pool_contents(p);
    let mut hit = false;
    let mut k: usize = 0;
    while k < ids.len()
        invariant
            k <= ids@.len(),
            pool_ready(p),
            pages_kept(p, pool@),
            p == old(pool)@,
            pages == pool_contents(p),
            s.schema == schema@,
            s.filter == filter_view(*filter),
            s.set == set_view(set),
            s.dups == dups@,
            set matches Some(v) ==> dups@.len() == v@.len(),
            schema@.primary_key is Some ==> schema@.pk_col() is Some,
            survey_pages(pages, s, ids@, k as nat) == Ok::<bool, Seq<char>>(hit),
        decreases ids@.len() - k,
    {
        let ghost q = pool@;
        let judged = survey_heap_page(pool, ids[k], schema, filter, set, dups, hit, Ghost(s));
        proof {
            lemma_kept(p, q, pool@);
        }
        match judged {
            Err(e) => {
                proof {
                    lemma_survey_stops(pages, s, ids@, (k + 1) as nat, ids@.len());
                }
                return Err(e);
            },
            Ok(b) => {
                hit = b;
            },
        }
        k = k + 1;
    }
    Ok(hit)
}

/// Deletes or updates the selected rows of page `id`, as `sweep_page` does, if the page can be read.
/// Tells whether the page changed.
pub fn sweep_heap_page(
    pool: &mut BufferPool,
    wal: &mut WalManager,
    indexes: &mut IndexManager,
    schema: &Schema,
    table: &str,
    filter: &Option<Expr>,
    set: Option<&Vec<Assignment>>,
    txn: u32,
    id: u32,
    Ghost(s): Ghost<Sweep>,
) -> (changed: bool)
    requires
        pool_ready(old(pool)@),
        old(wal).wf(),
        old(wal)@.lsn + 0x2_0000 <= u64::MAX,
        old(indexes).wf(),
        s.schema == schema@,
        s.table == table@,
        s.filter == filter_view(*filter),
        s.txn == txn,
        s.set == set_view(set),
    ensures
        final(wal).wf(),
        old(wal)@.lsn <= final(wal)@.lsn <= old(wal)@.lsn + 0x2_0000,
        final(indexes).wf(),
        match pool_contents(old(pool)@)[id] {
            Err(_) => {
                &&& pages_kept(old(pool)@, final(pool)@)
                &&& final(wal)@ == old(wal)@
                &&& final(indexes)@ == old(indexes)@
                &&& !changed
            },
            Ok(d) => {
                let w = sweep_slots(
                    Work { page: d, wal: old(wal)@, indexes: old(indexes)@ },
                    s,
                    id,
                    page_count(d) as nat,
                );
                &&& if changed {
                    page_changed(old(pool)@, final(pool)@, id, w.page)
                } else {
                    pages_kept(old(pool)@, final(pool)@) && w.page == d
                }
                &&& final(wal)@ == w.wal
                &&& final(indexes)@ == w.indexes
            },
        },
{
    let ghost p = pool@;
    proof {
        law_look(p, id, Seq::empty());
        lemma_looked(p, id);
    }
    match pool.fetch_page(id) {
        Err(_) => false,
        Ok(frame) => {
            let ghost q = pool@;
            let ghost old_page = q.frames[frame as int].page->0;
            let mut changed = false;
            if let Some(page) = pool.get_page_mut(frame) {
                changed = sweep_page(
                    page,
                    wal,
                    indexes,
                    schema,
                    table,
                    filter,
                    set,
                    txn,
                    id,
                    Ghost(s),
                );
            }
            let ghost r = pool@;
            let ghost new_page = r.frames[frame as int].page->0;
            proof {
                assert(r == pool_set(q, frame as int, new_page));
                if changed {
                    lemma_visited(p, id, new_page);
                } else {
                    assert(new_page == old_page);
                    assert(r.frames =~= q.frames);
                    assert(r == q);
                }
            }
            pool.unpin(frame, changed);
            changed
        },
    }
}

/// Logs a tuple for page `id` and puts it there, if the page has room for it. Returns the slot it
/// took, or `None` if there is no room.
pub fn insert_in_page(
    pool: &mut BufferPool,
    wal: &mut WalManager,
    txn: u32,
    id: u32,
    tuple: &[u8],
) -> (res: Result<Option<u16>, String>)
    requires
        pool_ready(old(pool)@),
        old(wal).wf(),
        old(wal)@.lsn < u64::MAX,
    ensures
        final(wal).wf(),
        match pool_contents(old(pool)@)[id] {
            Err(e) => {
                &&& pages_kept(old(pool)@, final(pool)@)
                &&& final(wal)@ == old(wal)@
                &&& res is Err
                &&& (res->Err_0)@ == msg_fetch(id, e)
            },
            Ok(d) => if page_room(d) < tuple@.len() + 5 {
                &&& pages_kept(old(pool)@, final(pool)@)
                &&& final(wal)@ == old(wal)@
                &&& res == Ok::<Option<u16>, String>(None)
            } else {
                &&& final(wal)@ == wal_insert(old(wal)@, txn, id, tuple@)
                &&& if log_takes(old(wal)@, id, tuple@.len()) {
                    &&& page_changed(
                        old(pool)@,
                        final(pool)@,
                        id,
                        page_body(page_try_put(d, tuple@)),
                    )
                    &&& res == Ok::<Option<u16>, String>(Some(slot_for(d, tuple@.len())))
                } else {
                    &&& pages_kept(old(pool)@, final(pool)@)
                    &&& res is Err
                    &&& (res->Err_0)@ == "wal insert: "@ + storage_message(StorageError::PageFull)
                }
            },
        },
{
    let ghost p = pool@;
    proof {
        law_look(p, id, Seq::empty());
        lemma_looked(p, id);
    }
    match pool.fetch_page(id) {
        Err(e) => Err(fetch_text(id, e)),
        Ok(frame) => {
            let ghost q = pool@;
            let ghost data = (q.frames[frame as int].page->0).data;
            let ghost d = page_body(data);
            proof {
                assert(page_body(d) =~= d);
                law_body_reads(data, d);
                assert(page_fits(data, tuple@.len()) == page_fits(d, tuple@.len()));
                if page_fits(data, tuple@.len()) {
                    law_body_insert(data, d, tuple@);
                }
            }
            let free: usize = match pool.get_page(frame) {
                Some(page) => page.free_space(),
                None => 0,
            };
            if free < 5 || free - 5 < tuple.len() {
                pool.unpin(frame, false);
                return Ok(None);
            }
            match wal.log_insert(txn, id, tuple) {
                Err(e) => {
                    pool.unpin(frame, false);
                    let m = e.message();
                    return Err(join2("wal insert: ", m.as_str()));
                },
                Ok(_) => {},
            }
            let mut slot: u16 = 0;
            if let Some(page) = pool.get_page_mut(frame) {
                if let Some(s) = page.insert_tuple(tuple) {
                    slot = s;
                }
            }
            let ghost r = pool@;
            let ghost new_page = r.frames[frame as int].page->0;
            proof {
                assert(r == pool_set(q, frame as int, new_page));
                assert(new_page.data == page_try_put(data, tuple@));
                lemma_visited(p, id, new_page);
            }
            pool.unpin(frame, true);
            Ok(Some(slot))
        },
    }
}

/// Allocates a page, logs a tuple for it and puts it there. Returns the page and the slot.
pub fn insert_in_new_page(
    pool: &mut BufferPool,
    wal: &mut WalManager,
    txn: u32,
    tuple: &[u8],
) -> (res: Result<(u32, u16), String>)
    requires
        pool_ready(old(pool)@),
        old(pool)@.disk.num_pages < u32::MAX,
        old(wal).wf(),
        old(wal)@.lsn < u64::MAX,
    ensures
        final(wal).wf(),
        ({
            let id = old(pool)@.disk.num_pages;
            let d = page_body(page_blank(id));
            &&& final(wal)@ == wal_insert(old(wal)@, txn, id, tuple@)
            &&& if log_takes(old(wal)@, id, tuple@.len()) {
                &&& page_added(
                    old(pool)@,
                    final(pool)@,
                    page_body(page_try_put(d, tuple@)),
                )
                &&& res == Ok::<(u32, u16), String>((id, slot_for(d, tuple@.len())))
            } else {
                &&& page_added(old(pool)@, final(pool)@, d)
                &&& res is Err
                &&& (res->Err_0)@ == "wal insert new page: "@ + storage_message(
                    StorageError::PageFull,
                )
            }
        }),
{
    let ghost p = pool@;
    let ghost blank = page_blank(p.disk.num_pages);
    let ghost d = page_body(blank);
    proof {
        law_visit_new(
            p,
            PageView { id: p.disk.num_pages, data: blank, dirty: true },
            Seq::empty(),
        );
        assert(page_body(d) =~= d);
        law_body_reads(blank, d);
        assert(page_fits(blank, tuple@.len()) == page_fits(d, tuple@.len()));
        if page_fits(blank, tuple@.len()) {
            law_body_insert(blank, d, tuple@);
        }
    }
    match pool.new_page() {
        Err(e) => {
            let m = e.message();
            Err(join2("new page: ", m.as_str()))
        },
        Ok((id, frame)) => {
            let ghost q = pool@;
            match wal.log_insert(txn, id, tuple) {
                Err(e) => {
                    proof {
                        let page = q.frames[frame as int].page->0;
                        assert(pool_set(q, frame as int, page).frames =~= q.frames);
                        assert(pool_set(q, frame as int, page) == q);
                        lemma_visited_new(p, page);
                    }
                    pool.unpin(frame, true);
                    let m = e.message();
                    return Err(join2("wal insert new page: ", m.as_str()));
                },
                Ok(_) => {},
            }
            let mut slot: u16 = 0;
            if let Some(page) = pool.get_page_mut(frame) {
                if let Some(s) = page.insert_tuple(tuple) {
                    slot = s;
                }
            }
            let ghost r = pool@;
            let ghost new_page = r.frames[frame as int].page->0;
            proof {
                assert(r == pool_set(q, frame as int, new_page));
                assert(new_page.data == page_try_put(blank, tuple@));
                lemma_visited_new(p, new_page);
            }
            pool.unpin(frame, true);
            Ok((id, slot))
        },
    }
}

/// Replaces the bytes of page `id`, if it can be read.
pub fn restore_page(pool: &mut BufferPool, id: u32, data: [u8; PAGE_SIZE])
    requires
        pool_ready(old(pool)@),
    ensures
        match pool_contents(old(pool)@)[id] {
            Err(_) => pages_kept(old(pool)@, final(pool)@),
            Ok(_) => page_changed(old(pool)@, final(pool)@, id, page_body(data@)),
        },
{
    let ghost p = pool@;
    proof {
        law_look(p, id, Seq::empty());
        lemma_looked(p, id);
    }
    match pool.fetch_page(id) {
        Err(_) => {},
        Ok(frame) => {
            let ghost q = pool@;
            if let Some(page) = pool.get_page_mut(frame) {
                page.data = data;
                page.dirty = true;
            }
            let ghost r = pool@;
            let ghost new_page = r.frames[frame as int].page->0;
            proof {
                assert(r == pool_set(q, frame as int, new_page));
                lemma_visited(p, id, new_page);
            }
            pool.unpin(frame, true);
        },
    }
}

/// Adds a stored row to the indexes on its columns.
fn load_row(indexes: &mut IndexManager, table: &str, schema: &Schema, row: &Row, rid: Rid)
    requires
        old(indexes).wf(),
        row@.len() == schema@.columns.len(),
    ensures
        final(indexes).wf(),
        final(indexes)@ == index_load_row(
            old(indexes)@,
            table@,
            schema@,
            values_view(row@),
            rid,
            schema@.columns.len(),
        ),
{
    let ghost start = indexes@;
    let ghost vs = values_view(row@);
    let mut i: usize = 0;
    while i < schema.columns.len()
        invariant
            i <= schema.columns@.len(),
            row@.len() == schema@.columns.len(),
            vs == values_view(row@),
            indexes.wf(),
            indexes@ == index_load_row(start, table@, schema@, vs, rid, i as nat),
        decreases schema.columns@.len() - i,
    {
        let name: &str = schema.columns[i].name.as_str();
        assert(schema@.columns[i as int] == schema.columns@[i as int]@);
        proof {
            lemma_position(column_names(schema@.columns), name@, 0);
            assert(column_names(schema@.columns)[i as int] == name@);
        }
        if let Some(at) = schema.col_index(name) {
            assert(vs[at as int] == row@[at as int]@);
            if let Value::Int(key) = &row[at] {
                indexes.insert(table, name, *key, rid);
            }
        }
        i = i + 1;
    }
}

/// Adds the rows of a page to the indexes on their columns.
fn load_page(indexes: &mut IndexManager, table: &str, schema: &Schema, page: &Page, id: u32)
    requires
        old(indexes).wf(),
    ensures
        final(indexes).wf(),
        ({
            let d = page_body(page.data@);
            final(indexes)@ == index_load_slots(
                old(indexes)@,
                table@,
                schema@,
                d,
                id,
                page_count(d) as nat,
            )
        }),
{
    let ghost start = indexes@;
    let ghost d = page_body(page.data@);
    proof {
        assert(page_body(d) =~= d);
        law_body_reads(page.data@, d);
    }
    let n: u16 = page.num_slots();
    let mut slot: u16 = 0;
    while slot < n
        invariant
            slot <= n,
            n == page_count(d),
            d == page_body(page.data@),
            indexes.wf(),
            indexes@ == index_load_slots(start, table@, schema@, d, id, slot as nat),
        decreases n - slot,
    {
        if let Some(tuple) = page.copy_tuple(slot) {
            proof {
                law_row_fits(schema@.columns, tuple@);
            }
            if let Ok(row) = schema.deserialize_row(tuple.as_slice()) {
                assert(values_view(row@).len() == row@.len());
                load_row(indexes, table, schema, &row, Rid { page_id: id, slot_id: slot });
            }
        }
        slot = slot + 1;
    }
}

/// Adds the rows of page `id` to the indexes on their columns, if the page can be read.
pub fn load_heap_page(
    pool: &mut BufferPool,
    indexes: &mut IndexManager,
    table: &str,
    schema: &Schema,
    id: u32,
)
    requires
        pool_ready(old(pool)@),
        old(indexes).wf(),
    ensures
        pages_kept(old(pool)@, final(pool)@),
        final(indexes).wf(),
        match pool_contents(old(pool)@)[id] {
            Err(_) => final(indexes)@ == old(indexes)@,
            Ok(d) => final(indexes)@ == index_load_slots(
                old(indexes)@,
                table@,
                schema@,
                d,
                id,
                page_count(d) as nat,
            ),
        },
{
    let ghost p = pool@;
    proof {
        law_look(p, id, Seq::empty());
        lemma_looked(p, id);
    }
    match pool.fetch_page(id) {
        Err(_) => {},
        Ok(frame) => {
            if let Some(page) = pool.get_page(frame) {
                load_page(indexes, table, schema, page, id);
            }
            pool.unpin(frame, false);
        },
    }
}

} // verus!
