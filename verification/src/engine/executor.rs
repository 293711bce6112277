//! Executes statements on a database.
use crate::buffer::buffer_pool::{
    dirty_within, frame_clean, law_flush, law_flush_all, law_flush_all_grows, law_flush_listed,
    law_flushed_page_is_on_file, lemma_contents_sized, pool_contents, pool_flush, pool_page,
    BufferPool, PoolView,
};
use crate::engine::catalog::{
    column_names, lemma_key_column, lemma_position, new_schema, position, table_names, Catalog,
    CatalogView, Schema,
};
use crate::engine::contents::lemma_listed;
use crate::engine::heap::{
    insert_in_new_page, insert_in_page, key_in_pages, lemma_kept, load_heap_page, page_changed,
    pages_kept, pool_ready, restore_page, survey_table, sweep_heap_page,
};
use crate::engine::index_manager::IndexManager;
use crate::engine::model::{
    catalog_in, create_table, db_wf, entry_names, execute, finish_insert, index_create_all,
    index_load_pages, index_load_tables, insert, key_check, key_dups, key_in_use, log_takes,
    metas_in, msg_fetch, place_for, put_tuple, recovered_with, restored, select, slot_for, sweep,
    sweep_of, sweep_pages, table_pages, tables_put, DbView, Place, TableView,
};
use crate::engine::query::{arrange, index_hits, read_rids, scan_table};
use crate::engine::rows::{rows_view, Row};
use crate::engine::sweep::{add_row, duplicate_key, set_view};
use crate::engine::tables::{
    clone_ids, entries_view, files_view, find_entry, lemma_tables_put, load_table_meta, put_entry,
    save_table_meta, TableMeta,
};
use crate::index::node::Rid;
use crate::recovery::wal::{
    log_records, page_try_put, redone_upto, undone_from, wal_begin, wal_insert, wal_opened,
    WalManager,
};
use crate::sql::ast::{
    assignments_view, columns_view, filter_view, order_view, values_view, Assignment, ColumnDef,
    Expr, OrderDir, SelectColumns, Statement, Value,
};
use crate::storage::catalog_store::{lemma_catalog_new, CatalogStore};
use crate::storage::disk_manager::{disk_grew, file_view, lemma_disk_grew, DiskView};
use crate::storage::error::{storage_message, StorageError};
use crate::storage::page::{page_body, page_valid, PAGE_SIZE};
use crate::text::{join3, join4, text_eq};
use vstd::prelude::*;
use vstd::string::*;

verus! {

/// The files of a database directory.
pub struct Storage {
    /// The whole pages of the database file.
    pub pages: Vec<[u8; PAGE_SIZE]>,
    /// The bytes of the write-ahead log.
    pub log: Vec<u8>,
    /// The bytes of the catalog file, if there is one.
    pub catalog: Option<Vec<u8>>,
    /// The bytes of the page list files, by table.
    pub metas: Vec<(String, Vec<u8>)>,
}

pub open spec fn bytes_view(b: Option<Vec<u8>>) -> Option<Seq<u8>> {
    match b {
        Some(v) => Some(v@),
        None => None,
    }
}

/// What reading each page of a database file gives, the checksum aside.
pub open spec fn stored_pages(file: Seq<Seq<u8>>) -> Map<u32, Result<Seq<u8>, StorageError>> {
    Map::new(
        |id: u32| true,
        |id: u32|
            if id >= file.len() {
                Err(StorageError::PastEnd)
            } else if page_valid(file[id as int]) {
                Ok(page_body(file[id as int]))
            } else {
                Err(StorageError::Checksum(id))
            },
    )
}

/// Every page of the lists can be read from the file.
pub open spec fn lists_on_file(tables: Seq<TableView>, file: Seq<Seq<u8>>) -> bool {
    forall|i: int, k: int|
        0 <= i < tables.len() && 0 <= k < tables[i].pages.len() ==> {
            let id = #[trigger] tables[i].pages[k];
            id < file.len() && page_valid(file[id as int])
        }
}

/// A database that was opened on files and not recovered yet.
pub open spec fn opened(
    file: Seq<Seq<u8>>,
    log: Seq<u8>,
    catalog_file: Option<Seq<u8>>,
    meta_files: Seq<(Seq<char>, Seq<u8>)>,
) -> DbView {
    DbView {
        catalog: CatalogView { tables: Seq::empty(), index_defs: Seq::empty() },
        tables: Seq::empty(),
        pages: stored_pages(file),
        num_pages: file.len() as u32,
        wal: wal_opened(log),
        indexes: Seq::empty(),
        catalog_file,
        meta_files,
    }
}

/// The numbers of transactions, pages and log records that a statement may need are not used up.
pub open spec fn has_room(db: DbView) -> bool {
    &&& db.wal.next_txn < u32::MAX
    &&& db.num_pages < u32::MAX
    &&& db.wal.lsn + 3 <= u64::MAX
    &&& forall|i: int|
        0 <= i < db.tables.len() ==> db.wal.lsn + 3 + 0x2_0000 * (
        #[trigger] db.tables[i]).pages.len() <= u64::MAX
}

/// What happened during recovery.
#[derive(Debug)]
pub struct RecoveryInfo {
    pub redone: usize,
    pub undone: usize,
    pub tables_loaded: usize,
}

/// The executor. Every change goes first to the log, which is made durable on commit, then to the
/// page in the buffer pool, and on commit to the database file.
pub struct Executor {
    pub catalog: Catalog,
    table_pages: Vec<(String, TableMeta)>,
    buffer_pool: BufferPool,
    wal: WalManager,
    catalog_store: CatalogStore,
    data_dir: String,
    pub index_manager: IndexManager,
    catalog_file: Option<Vec<u8>>,
    meta_files: Vec<(String, Vec<u8>)>,
}

impl View for Executor {
    type V = DbView;

    closed spec fn view(&self) -> DbView {
        DbView {
            catalog: self.catalog@,
            tables: entries_view(self.table_pages@),
            pages: pool_contents(self.buffer_pool@),
            num_pages: self.buffer_pool@.disk.num_pages,
            wal: self.wal@,
            indexes: self.index_manager@,
            catalog_file: bytes_view(self.catalog_file),
            meta_files: files_view(self.meta_files@),
        }
    }
}

impl Executor {
    /// What holds of an executor between statements: no page is pinned, and the database is well
    /// formed.
    pub closed spec fn wf(&self) -> bool {
        &&& pool_ready(self.buffer_pool@)
        &&& self.wal.wf()
        &&& self.index_manager.wf()
        &&& db_wf(self@)
    }

    /// The database file and the pages written to it.
    pub closed spec fn disk(&self) -> DiskView {
        self.buffer_pool@.disk
    }

    /// The pages of the database file.
    pub open spec fn file(&self) -> Seq<Seq<u8>> {
        self.disk().file
    }

    /// The pages written to the database file since the list was last taken.
    pub open spec fn written(&self) -> Seq<u32> {
        self.disk().written
    }

    /// No page waits to be written to the database file.
    pub closed spec fn flushed(&self) -> bool {
        dirty_within(self.buffer_pool@, Seq::empty())
    }

    pub closed spec fn dir(&self) -> Seq<char> {
        self.data_dir@
    }

    /// Opens a database on its files. To be recovered before any statement.
    pub fn open(data_dir: &str, storage: Storage) -> (e: Self)
        requires
            storage.pages@.len() <= u32::MAX,
        ensures
            e.wf(),
            e.flushed(),
            e.dir() == data_dir@,
            e.file() == file_view(storage.pages@),
            e@ == opened(
                file_view(storage.pages@),
                storage.log@,
                bytes_view(storage.catalog),
                files_view(storage.metas@),
            ),
    {
        let ghost file = file_view(storage.pages@);
        let e = Self {
            catalog: Catalog::new(),
            table_pages: Vec::new(),
            buffer_pool: BufferPool::new(64, storage.pages),
            wal: WalManager::new(storage.log),
            catalog_store: CatalogStore::new(data_dir),
            data_dir: data_dir.to_owned(),
            index_manager: IndexManager::new(),
            catalog_file: storage.catalog,
            meta_files: storage.metas,
        };
        proof {
            let p = e.buffer_pool@;
            assert forall|i: int| 0 <= i < p.frames.len() implies (#[trigger] p.frames[i]).pins
                == 0 by {}
            assert(p.frames.len() == 64);
            assert(e@.tables =~= Seq::empty());
            assert(e@.pages =~= stored_pages(file));
            lemma_contents_sized(p);
            assert(e@.catalog.tables =~= Seq::empty());
        }
        e
    }

    /// Creates a table, with an index on its primary key.
    pub fn exec_create_table(&mut self, table: String, columns: Vec<ColumnDef>) -> (res: Result<
        Vec<Row>,
        String,
    >)
        requires
            old(self).wf(),
        ensures
            final(self).wf(),
            final(self).dir() == old(self).dir(),
            old(self).flushed() ==> final(self).flushed(),
            disk_grew(old(self).disk(), final(self).disk()),
            lists_on_file(old(self)@.tables, old(self).file()) ==> lists_on_file(
                final(self)@.tables,
                final(self).file(),
            ),
            final(self)@ == create_table(old(self)@, table@, columns_view(columns@)).0,
            match (res, create_table(old(self)@, table@, columns_view(columns@)).1) {
                (Ok(rows), Ok(v)) => rows_view(rows@) == v,
                (Err(e), Err(t)) => e@ == t,
                _ => false,
            },
    {
        let ghost before = self@;
        let ghost cols = columns_view(columns@);
        let schema = Schema::new(table.clone(), columns);
        let ghost added = schema@;
        let key = match &schema.primary_key {
            Some(k) => Some(k.clone()),
            None => None,
        };
        if let Some(k) = &key {
            self.index_manager.create_index(table.as_str(), k.as_str());
        }
        match self.catalog.create_table(schema) {
            Err(e) => {
                assert(self@ =~= create_table(before, table@, cols).0);
                return Err(e);
            },
            Ok(_) => {},
        }
        let ghost defs = self.catalog@.index_defs;
        let ghost tables = self.catalog@.tables;
        if let Some(k) = key {
            let ghost name = k@;
            self.catalog.index_defs.push((table.clone(), k));
            assert(self.catalog@.index_defs =~= defs.push((table@, name)));
            assert(self.catalog@.tables =~= tables);
        }
        put_entry(&mut self.table_pages, table.as_str(), TableMeta { page_ids: Vec::new() });
        let bytes = self.catalog_store.save(&self.catalog);
        self.catalog_file = Some(bytes);
        let none: Vec<u32> = Vec::new();
        save_table_meta(&mut self.meta_files, table.as_str(), &none);
        let rows: Vec<Row> = Vec::new();
        proof {
            let after = create_table(before, table@, cols).0;
            assert(self@.catalog =~= after.catalog);
            assert(self@ =~= after);
            if lists_on_file(before.tables, self.file()) {
                lemma_lists_put(before.tables, table@, Seq::empty(), self.file());
            }
            assert(rows_view(rows@) =~= Seq::empty());
            assert forall|i: int| 0 <= i < self@.catalog.tables.len() implies {
                let s = #[trigger] self@.catalog.tables[i];
                &&& s == new_schema(s.name, s.columns)
                &&& table_pages(self@.tables, s.name) is Some
            } by {
                let s = self@.catalog.tables[i];
                lemma_tables_put(before.tables, table@, Seq::empty(), s.name);
                if i < before.catalog.tables.len() {
                    assert(s == before.catalog.tables[i]);
                }
            }
        }
        Ok(rows)
    }
}

impl Executor {
    /// Tells whether the numbers that a statement may need are not used up.
    pub fn has_room(&self) -> (b: bool)
        ensures
            b == has_room(self@),
    {
        let lsn: u64 = self.wal.current_lsn();
        if self.wal.next_txn_id() == u32::MAX || self.buffer_pool.num_pages() == u32::MAX || lsn
            > u64::MAX - 3 {
            return false;
        }
        let mut i: usize = 0;
        while i < self.table_pages.len()
            invariant
                i <= self.table_pages@.len(),
                lsn == self@.wal.lsn,
                lsn <= u64::MAX - 3,
                forall|k: int|
                    0 <= k < i ==> lsn + 3 + 0x2_0000 * (#[trigger] self@.tables[k]).pages.len()
                        <= u64::MAX,
            decreases self.table_pages@.len() - i,
        {
            assert(self@.tables[i as int].pages == self.table_pages@[i as int].1.page_ids@);
            let n: u64 = self.table_pages[i].1.page_ids.len() as u64;
            if n > (u64::MAX - 3 - lsn) / 0x2_0000 {
                return false;
            }
            i = i + 1;
        }
        true
    }

    /// The page list of a table.
    fn page_list(&self, table: &str) -> (ids: Vec<u32>)
        requires
            self.wf(),
            self@.catalog.get(table@) is Some,
        ensures
            table_pages(self@.tables, table@) == Some(ids@),
    {
        proof {
            lemma_listed(self@, table@);
        }
        match find_entry(&self.table_pages, table) {
            Some(i) => clone_ids(&self.table_pages[i].1.page_ids),
            None => Vec::new(),
        }
    }
}

/// Tells whether some row of a table has a primary key that is equal to `v`.
fn key_used(
    pool: &mut BufferPool,
    indexes: &IndexManager,
    schema: &Schema,
    table: &str,
    ids: &Vec<u32>,
    v: &Value,
    Ghost(db): Ghost<DbView>,
) -> (used: bool)
    requires
        pool_ready(old(pool)@),
        indexes.wf(),
        schema@.primary_key is Some,
        schema@.pk_col() is Some,
        db.indexes == indexes@,
        db.pages == pool_contents(old(pool)@),
        table_pages(db.tables, table@) == Some(ids@),
    ensures
        pages_kept(old(pool)@, final(pool)@),
        used == key_in_use(db, schema@, table@, v@),
{
    proof {
        lemma_position(column_names(schema@.columns), schema@.primary_key->0, 0);
        lemma_stays(pool@);
    }
    match (v, &schema.primary_key, schema.pk_col_index()) {
        (Value::Int(key), Some(column), _) => indexes.search(
            table,
            column.as_str(),
            *key,
        ).is_some(),
        (_, _, Some(i)) => key_in_pages(pool, schema, ids, i, v),
        _ => false,
    }
}

/// A pool that is left alone.
proof fn lemma_stays(p: PoolView)
    requires
        pool_ready(p),
    ensures
        pages_kept(p, p),
{
}

/// Checks that the primary key of a row to be inserted is neither NULL nor one that another row has.
fn check_key(
    pool: &mut BufferPool,
    indexes: &IndexManager,
    schema: &Schema,
    table: &str,
    ids: &Vec<u32>,
    values: &Vec<Value>,
    Ghost(db): Ghost<DbView>,
) -> (res: Result<(), String>)
    requires
        pool_ready(old(pool)@),
        indexes.wf(),
        db.indexes == indexes@,
        db.pages == pool_contents(old(pool)@),
        table_pages(db.tables, table@) == Some(ids@),
    ensures
        pages_kept(old(pool)@, final(pool)@),
        match (res, key_check(db, schema@, table@, values_view(values@))) {
            (Ok(_), Ok(_)) => true,
            (Err(e), Err(t)) => e@ == t,
            _ => false,
        },
{
    proof {
        lemma_stays(pool@);
    }
    let i: usize = match schema.pk_col_index() {
        None => {
            return Ok(());
        },
        Some(i) => i,
    };
    if i >= values.len() {
        return Ok(());
    }
    assert(values_view(values@)[i as int] == values@[i as int]@);
    let column: &String = match &schema.primary_key {
        None => {
            return Ok(());
        },
        Some(c) => c,
    };
    if let Value::Null = &values[i] {
        return Err(join3("PRIMARY KEY column '", column.as_str(), "' cannot be NULL"));
    }
    if key_used(pool, indexes, schema, table, ids, &values[i], Ghost(db)) {
        Err(duplicate_key(column.as_str(), &values[i]))
    } else {
        Ok(())
    }
}

/// Finds which of the assignments of an UPDATE are of a primary key that some row has.
fn find_dups(
    pool: &mut BufferPool,
    indexes: &IndexManager,
    schema: &Schema,
    table: &str,
    ids: &Vec<u32>,
    set: Option<&Vec<Assignment>>,
    Ghost(db): Ghost<DbView>,
) -> (dups: Vec<bool>)
    requires
        pool_ready(old(pool)@),
        indexes.wf(),
        schema@.primary_key is Some ==> schema@.pk_col() is Some,
        db.indexes == indexes@,
        db.pages == pool_contents(old(pool)@),
        table_pages(db.tables, table@) == Some(ids@),
    ensures
        pages_kept(old(pool)@, final(pool)@),
        dups@ == key_dups(db, schema@, table@, set_view(set)),
{
    let mut dups: Vec<bool> = Vec::new();
    let ghost p = pool@;
    proof {
        lemma_stays(p);
    }
    let assignments: &Vec<Assignment> = match set {
        None => {
            assert(dups@ =~= Seq::empty());
            return dups;
        },
        Some(v) => v,
    };
    let ghost all = key_dups(db, schema@, table@, set_view(set));
    let mut k: usize = 0;
    while k < assignments.len()
        invariant
            k <= assignments@.len(),
            pool_ready(p),
            pages_kept(p, pool@),
            p == old(pool)@,
            indexes.wf(),
            schema@.primary_key is Some ==> schema@.pk_col() is Some,
            db.indexes == indexes@,
            db.pages == pool_contents(p),
            table_pages(db.tables, table@) == Some(ids@),
            set_view(set) == Some(assignments_view(assignments@)),
            all == key_dups(db, schema@, table@, set_view(set)),
            all.len() == assignments@.len(),
            dups@ == all.take(k as int),
        decreases assignments@.len() - k,
    {
        assert(assignments_view(assignments@)[k as int] == assignments@[k as int]@);
        let on_key = match &schema.primary_key {
            Some(column) => text_eq(assignments[k].column.as_str(), column.as_str()),
            None => false,
        };
        let ghost q = pool@;
        let dup = on_key && key_used(
            pool,
            indexes,
            schema,
            table,
            ids,
            &assignments[k].value,
            Ghost(db),
        );
        proof {
            lemma_stays(q);
            lemma_kept(p, q, pool@);
            assert(dup == all[k as int]);
            assert(all.take(k as int).push(dup) =~= all.take(k + 1));
        }
        dups.push(dup);
        k = k + 1;
    }
    assert(all.take(k as int) =~= all);
    dups
}

impl Executor {
    /// Inserts a row. A primary key that is NULL or that another row has is refused.
    pub fn exec_insert(&mut self, table: String, values: Vec<Value>) -> (res: Result<
        Vec<Row>,
        String,
    >)
        requires
            old(self).wf(),
            has_room(old(self)@),
        ensures
            final(self).wf(),
            final(self).dir() == old(self).dir(),
            res is Ok && old(self).flushed() ==> final(self).flushed(),
            disk_grew(old(self).disk(), final(self).disk()),
            lists_on_file(old(self)@.tables, old(self).file()) ==> lists_on_file(
                final(self)@.tables,
                final(self).file(),
            ),
            final(self)@ == insert(old(self)@, table@, values_view(values@)).0,
            match (res, insert(old(self)@, table@, values_view(values@)).1) {
                (Ok(rows), Ok(v)) => rows_view(rows@) == v,
                (Err(e), Err(t)) => e@ == t,
                _ => false,
            },
    {
        let ghost before = self@;
        let schema: Schema = match self.catalog.get(table.as_str()) {
            None => {
                return Err(join3("table '", table.as_str(), "' not found"));
            },
            Some(s) => s.clone(),
        };
        let ids: Vec<u32> = self.page_list(table.as_str());
        let ghost p = self.buffer_pool@;
        let checked = check_key(
            &mut self.buffer_pool,
            &self.index_manager,
            &schema,
            table.as_str(),
            &ids,
            &values,
            Ghost(before),
        );
        let ghost d = self.disk();
        proof {
            assert(self@ =~= before);
            if lists_on_file(before.tables, old(self).file()) {
                lemma_lists_kept(before.tables, old(self).disk(), self.disk());
            }
            if old(self).flushed() {
                assert(dirty_within(p, Seq::<u32>::empty()));
            }
        }
        match checked {
            Err(e) => Err(e),
            Ok(_) => {
                let res = self.put_row(schema, table, values, ids);
                proof {
                    lemma_disk_grew(old(self).disk(), d, self.disk());
                }
                res
            },
        }
    }

    /// Writes a row whose primary key was checked.
    #[verifier::rlimit(40)]
    fn put_row(&mut self, schema: Schema, table: String, values: Vec<Value>, ids: Vec<u32>) -> (res:
        Result<Vec<Row>, String>)
        requires
            old(self).wf(),
            has_room(old(self)@),
            old(self)@.catalog.get(table@) == Some(schema@),
            table_pages(old(self)@.tables, table@) == Some(ids@),
            key_check(old(self)@, schema@, table@, values_view(values@)) is Ok,
        ensures
            final(self).wf(),
            final(self).dir() == old(self).dir(),
            res is Ok && old(self).flushed() ==> final(self).flushed(),
            disk_grew(old(self).disk(), final(self).disk()),
            lists_on_file(old(self)@.tables, old(self).file()) ==> lists_on_file(
                final(self)@.tables,
                final(self).file(),
            ),
            final(self)@ == insert(old(self)@, table@, values_view(values@)).0,
            match (res, insert(old(self)@, table@, values_view(values@)).1) {
                (Ok(rows), Ok(v)) => rows_view(rows@) == v,
                (Err(e), Err(t)) => e@ == t,
                _ => false,
            },
    {
        let ghost before = self@;
        let ghost row = values_view(values@);
        let mut ids = ids;
        let bytes: Vec<u8> = match schema.serialize_row(values.as_slice()) {
            Err(e) => {
                return Err(e);
            },
            Ok(b) => b,
        };
        let txn: u32 = self.wal.begin_txn();
        let ghost begun = self@;
        let ghost d0 = self.buffer_pool@.disk;
        assert(begun =~= (DbView { wal: wal_begin(before.wal), ..before }));
        let placed = match insert_in_pages(
            &mut self.buffer_pool,
            &mut self.wal,
            &ids,
            txn,
            bytes.as_slice(),
        ) {
            Err(e) => {
                proof {
                    lemma_contents_sized(self.buffer_pool@);
                    assert(self@ =~= insert(before, table@, row).0);
                    if lists_on_file(before.tables, d0.file) {
                        lemma_lists_kept(before.tables, d0, self.buffer_pool@.disk);
                    }
                }
                return Err(e);
            },
            Ok(p) => p,
        };
        let ghost d1 = self.buffer_pool@.disk;
        let rid: Rid = match placed {
            Some(rid) => {
                assert(self@ =~= put_tuple(
                    begun,
                    txn,
                    rid.page_id,
                    begun.pages[rid.page_id]->Ok_0,
                    bytes@,
                ));
                rid
            },
            None => match insert_in_new_page(
                &mut self.buffer_pool,
                &mut self.wal,
                txn,
                bytes.as_slice(),
            ) {
                Err(e) => {
                    proof {
                        lemma_contents_sized(self.buffer_pool@);
                        assert(self@ =~= insert(before, table@, row).0);
                        lemma_disk_grew(d0, d1, self.buffer_pool@.disk);
                        if lists_on_file(before.tables, d0.file) {
                            lemma_lists_kept(before.tables, d0, self.buffer_pool@.disk);
                        }
                    }
                    return Err(e);
                },
                Ok((page_id, slot_id)) => {
                    let ghost old_ids = ids@;
                    ids.push(page_id);
                    save_table_meta(&mut self.meta_files, table.as_str(), &ids);
                    put_entry(&mut self.table_pages, table.as_str(), TableMeta { page_ids: ids });
                    Rid { page_id, slot_id }
                },
            },
        };
        let ghost stored = self@;
        assert(stored.indexes == before.indexes);
        assert(row.len() == values@.len());
        add_row(&mut self.index_manager, table.as_str(), &schema, &values, rid);
        self.wal.commit(txn);
        let ghost p = self.buffer_pool@;
        self.buffer_pool.flush_page(rid.page_id);
        let rows: Vec<Row> = Vec::new();
        proof {
            assert(rows_view(rows@) =~= Seq::empty());
            lemma_flushed(p, rid.page_id);
            lemma_disk_grew(d1, p.disk, self.buffer_pool@.disk);
            lemma_disk_grew(d0, d1, self.buffer_pool@.disk);
            if lists_on_file(before.tables, d0.file) {
                if placed is Some {
                    lemma_lists_kept(before.tables, d0, self.buffer_pool@.disk);
                } else {
                    lemma_lists_push(
                        before.tables,
                        table@,
                        rid.page_id,
                        d0,
                        self.buffer_pool@.disk,
                    );
                }
            }
            lemma_contents_sized(self.buffer_pool@);
            assert(self@ =~= finish_insert(stored, schema@, table@, row, txn, rid));
            assert(self@ =~= insert(before, table@, row).0);
            assert forall|i: int| 0 <= i < self@.catalog.tables.len() implies {
                let s = #[trigger] self@.catalog.tables[i];
                &&& s == new_schema(s.name, s.columns)
                &&& table_pages(self@.tables, s.name) is Some
            } by {
                let s = before.catalog.tables[i];
                lemma_tables_put(before.tables, table@, ids@, s.name);
            }
            if old(self).flushed() {
                let q0 = old(self).buffer_pool@;
                let list = Seq::<u32>::empty().push(rid.page_id);
                assert(dirty_within(q0, Seq::<u32>::empty()));
                assert(dirty_within(p, list));
                law_flush_listed(p, list);
                assert(list.skip(1) =~= Seq::<u32>::empty());
            }
        }
        Ok(rows)
    }
}

impl Executor {
    /// Finds rows, through an index where one can be used, sorts them and cuts them off.
    pub fn exec_select(
        &mut self,
        table: String,
        columns: SelectColumns,
        filter: Option<Expr>,
        order_by: Option<(String, OrderDir)>,
        limit: Option<u64>,
    ) -> (res: Result<Vec<Row>, String>)
        requires
            old(self).wf(),
        ensures
            final(self).wf(),
            final(self).dir() == old(self).dir(),
            old(self).flushed() ==> final(self).flushed(),
            disk_grew(old(self).disk(), final(self).disk()),
            lists_on_file(old(self)@.tables, old(self).file()) ==> lists_on_file(
                final(self)@.tables,
                final(self).file(),
            ),
            final(self)@ == old(self)@,
            match (
                res,
                select(
                    old(self)@,
                    table@,
                    columns@,
                    filter_view(filter),
                    order_view(order_by),
                    limit,
                ),
            ) {
                (Ok(rows), Ok(v)) => rows_view(rows@) == v,
                (Err(e), Err(t)) => e@ == t,
                _ => false,
            },
    {
        let ghost before = self@;
        let schema: Schema = match self.catalog.get(table.as_str()) {
            None => {
                return Err(join3("table '", table.as_str(), "' not found"));
            },
            Some(s) => s.clone(),
        };
        let ids: Vec<u32> = self.page_list(table.as_str());
        let hits: Option<Vec<Rid>> = match &filter {
            Some(e) => index_hits(&self.index_manager, &schema, table.as_str(), e),
            None => None,
        };
        let found = match &hits {
            Some(rids) => read_rids(
                &mut self.buffer_pool,
                &schema,
                &filter,
                &columns,
                &ids,
                rids,
            ),
            None => scan_table(&mut self.buffer_pool, &schema, &filter, &columns, &ids),
        };
        assert(self@ =~= before);
        proof {
            if lists_on_file(before.tables, old(self).file()) {
                lemma_lists_kept(before.tables, old(self).disk(), self.disk());
            }
        }
        match found {
            Err(e) => Err(e),
            Ok(mut rows) => match arrange(&mut rows, &schema, &columns, &order_by, limit) {
                Err(e) => Err(e),
                Ok(_) => Ok(rows),
            },
        }
    }

    /// Deletes the selected rows of a table, or applies the assignments to them, in one transaction.
    /// If it fails at some row, it changes none.
    #[verifier::rlimit(40)]
    fn exec_sweep(
        &mut self,
        table: String,
        filter: Option<Expr>,
        set: Option<&Vec<Assignment>>,
    ) -> (res: Result<Vec<Row>, String>)
        requires
            old(self).wf(),
            has_room(old(self)@),
        ensures
            final(self).wf(),
            final(self).dir() == old(self).dir(),
            res is Ok && old(self).flushed() ==> final(self).flushed(),
            disk_grew(old(self).disk(), final(self).disk()),
            lists_on_file(old(self)@.tables, old(self).file()) ==> lists_on_file(
                final(self)@.tables,
                final(self).file(),
            ),
            final(self)@ == sweep(old(self)@, table@, filter_view(filter), set_view(set)).0,
            match (res, sweep(old(self)@, table@, filter_view(filter), set_view(set)).1) {
                (Ok(rows), Ok(v)) => rows_view(rows@) == v,
                (Err(e), Err(t)) => e@ == t,
                _ => false,
            },
    {
        let ghost before = self@;
        let schema: Schema = match self.catalog.get(table.as_str()) {
            None => {
                return Err(join3("table '", table.as_str(), "' not found"));
            },
            Some(s) => s.clone(),
        };
        let ids: Vec<u32> = self.page_list(table.as_str());
        proof {
            lemma_listed(before, table@);
            lemma_key_column(table@, schema@.columns);
            lemma_list_room(before, table@);
        }
        let dups = find_dups(
            &mut self.buffer_pool,
            &self.index_manager,
            &schema,
            table.as_str(),
            &ids,
            set,
            Ghost(before),
        );
        let ghost s = sweep_of(before, table@, filter_view(filter), set_view(set));
        let ghost p0 = old(self).buffer_pool@;
        let ghost p1 = self.buffer_pool@;
        let judged = survey_table(
            &mut self.buffer_pool,
            &ids,
            &schema,
            &filter,
            set,
            &dups,
            Ghost(s),
        );
        proof {
            lemma_kept(p0, p1, self.buffer_pool@);
            assert(self@ =~= before);
            if lists_on_file(before.tables, old(self).file()) {
                lemma_lists_kept(before.tables, old(self).disk(), self.disk());
            }
        }
        let txn: u32 = self.wal.begin_txn();
        let ghost begun = self@;
        assert(begun =~= (DbView { wal: wal_begin(before.wal), ..before }));
        if let Err(e) = judged {
            self.wal.abort(txn);
            assert(self@ =~= sweep(before, table@, filter_view(filter), set_view(set)).0);
            return Err(e);
        }
        let mut changed: Vec<u32> = Vec::new();
        let mut k: usize = 0;
        while k < ids.len()
            invariant
                k <= ids@.len(),
                self.wf(),
                self.dir() == old(self).dir(),
                s == sweep_of(before, table@, filter_view(filter), set_view(set)),
                before == old(self)@,
                before.catalog.get(table@) == Some(schema@),
                table_pages(before.tables, table@) == Some(ids@),
                txn == before.wal.next_txn,
                begun == (DbView { wal: wal_begin(before.wal), ..before }),
                old(self).flushed() ==> dirty_within(self.buffer_pool@, changed@),
                disk_grew(old(self).disk(), self.disk()),
                self@.tables == before.tables,
                before.wal.lsn + 3 + 0x2_0000 * ids@.len() <= u64::MAX,
                self.wal@.lsn <= before.wal.lsn + 1 + 0x2_0000 * k,
                sweep_pages(begun, s, ids@, k as nat) == self@,
            decreases ids@.len() - k,
        {
            let ghost now = self@;
            let ghost p = self.buffer_pool@;
            let id: u32 = ids[k];
            let dirty = sweep_heap_page(
                &mut self.buffer_pool,
                &mut self.wal,
                &mut self.index_manager,
                &schema,
                table.as_str(),
                &filter,
                set,
                txn,
                id,
                Ghost(s),
            );
            let ghost list = changed@;
            if dirty {
                changed.push(id);
            }
            proof {
                lemma_contents_sized(self.buffer_pool@);
                let next = sweep_pages(begun, s, ids@, (k + 1) as nat);
                assert(next.pages =~= self@.pages);
                assert(self@ =~= next);
                if old(self).flushed() {
                    assert(dirty_within(p, list));
                }
                lemma_disk_grew(old(self).disk(), p.disk, self.disk());
                if lists_on_file(before.tables, old(self).file()) {
                    lemma_lists_kept(before.tables, old(self).disk(), self.disk());
                }
            }
            k = k + 1;
        }
        let ghost swept = self@;
        self.wal.commit(txn);
        let ghost done = self@;
        assert(done =~= sweep(before, table@, filter_view(filter), set_view(set)).0);
        let mut j: usize = 0;
        assert(changed@.skip(0) =~= changed@);
        while j < changed.len()
            invariant
                j <= changed@.len(),
                self.wf(),
                self.dir() == old(self).dir(),
                self@ == done,
                old(self).flushed() ==> dirty_within(self.buffer_pool@, changed@.skip(j as int)),
                disk_grew(old(self).disk(), self.disk()),
            decreases changed@.len() - j,
        {
            let ghost p = self.buffer_pool@;
            proof {
                lemma_flushed(p, changed@[j as int]);
                lemma_disk_grew(old(self).disk(), p.disk, pool_flush(p, changed@[j as int]).disk);
                let rest = changed@.skip(j as int);
                assert(rest[0] == changed@[j as int]);
                if old(self).flushed() {
                    law_flush_listed(p, rest);
                    assert(rest.skip(1) =~= changed@.skip(j + 1));
                }
            }
            self.buffer_pool.flush_page(changed[j]);
            assert(self@ =~= done);
            j = j + 1;
        }
        assert(changed@.skip(j as int) =~= Seq::<u32>::empty());
        proof {
            if lists_on_file(before.tables, old(self).file()) {
                lemma_lists_kept(before.tables, old(self).disk(), self.disk());
            }
        }
        let rows: Vec<Row> = Vec::new();
        assert(rows_view(rows@) =~= Seq::empty());
        Ok(rows)
    }

    /// Deletes the selected rows. If it fails at some row, it deletes none.
    pub fn exec_delete(&mut self, table: String, filter: Option<Expr>) -> (res: Result<
        Vec<Row>,
        String,
    >)
        requires
            old(self).wf(),
            has_room(old(self)@),
        ensures
            final(self).wf(),
            final(self).dir() == old(self).dir(),
            res is Ok && old(self).flushed() ==> final(self).flushed(),
            disk_grew(old(self).disk(), final(self).disk()),
            lists_on_file(old(self)@.tables, old(self).file()) ==> lists_on_file(
                final(self)@.tables,
                final(self).file(),
            ),
            final(self)@ == sweep(old(self)@, table@, filter_view(filter), None).0,
            match (res, sweep(old(self)@, table@, filter_view(filter), None).1) {
                (Ok(rows), Ok(v)) => rows_view(rows@) == v,
                (Err(e), Err(t)) => e@ == t,
                _ => false,
            },
    {
        self.exec_sweep(table, filter, None)
    }

    /// Applies the assignments to the selected rows. If it fails at some row, it changes none.
    pub fn exec_update(
        &mut self,
        table: String,
        assignments: Vec<Assignment>,
        filter: Option<Expr>,
    ) -> (res: Result<Vec<Row>, String>)
        requires
            old(self).wf(),
            has_room(old(self)@),
        ensures
            final(self).wf(),
            final(self).dir() == old(self).dir(),
            res is Ok && old(self).flushed() ==> final(self).flushed(),
            disk_grew(old(self).disk(), final(self).disk()),
            lists_on_file(old(self)@.tables, old(self).file()) ==> lists_on_file(
                final(self)@.tables,
                final(self).file(),
            ),
            final(self)@ == sweep(
                old(self)@,
                table@,
                filter_view(filter),
                Some(assignments_view(assignments@)),
            ).0,
            match (
                res,
                sweep(
                    old(self)@,
                    table@,
                    filter_view(filter),
                    Some(assignments_view(assignments@)),
                ).1,
            ) {
                (Ok(rows), Ok(v)) => rows_view(rows@) == v,
                (Err(e), Err(t)) => e@ == t,
                _ => false,
            },
    {
        self.exec_sweep(table, filter, Some(&assignments))
    }

    /// Executes a statement. Returns the rows of a SELECT, and no rows otherwise.
    pub fn execute(&mut self, stmt: Statement) -> (res: Result<Vec<Row>, String>)
        requires
            old(self).wf(),
            has_room(old(self)@),
        ensures
            final(self).wf(),
            final(self).dir() == old(self).dir(),
            res is Ok && old(self).flushed() ==> final(self).flushed(),
            disk_grew(old(self).disk(), final(self).disk()),
            lists_on_file(old(self)@.tables, old(self).file()) ==> lists_on_file(
                final(self)@.tables,
                final(self).file(),
            ),
            final(self)@ == execute(old(self)@, stmt@).0,
            match (res, execute(old(self)@, stmt@).1) {
                (Ok(rows), Ok(v)) => rows_view(rows@) == v,
                (Err(e), Err(t)) => e@ == t,
                _ => false,
            },
    {
        match stmt {
            Statement::CreateTable { table, columns } => self.exec_create_table(table, columns),
            Statement::Insert { table, values } => self.exec_insert(table, values),
            Statement::Select { table, columns, filter, order_by, limit } => self.exec_select(
                table,
                columns,
                filter,
                order_by,
                limit,
            ),
            Statement::Delete { table, filter } => self.exec_delete(table, filter),
            Statement::Update { table, assignments, filter } => self.exec_update(
                table,
                assignments,
                filter,
            ),
        }
    }
}

proof fn lemma_list_room(db: DbView, table: Seq<char>)
    requires
        has_room(db),
        table_pages(db.tables, table) is Some,
    ensures
        db.wal.lsn + 3 + 0x2_0000 * (table_pages(db.tables, table)->0).len() <= u64::MAX,
{
    lemma_position(entry_names(db.tables), table, 0);
    let i = position(entry_names(db.tables), table, 0)->0;
    assert(db.tables[i].pages.len() >= 0);
}

/// The pages after those below `n` that were rebuilt from the log replaced what could be read of
/// them.
spec fn restored_upto(
    pages: Map<u32, Result<Seq<u8>, StorageError>>,
    logged: Map<u32, Seq<u8>>,
    n: int,
) -> Map<u32, Result<Seq<u8>, StorageError>> {
    Map::new(
        |id: u32| true,
        |id: u32|
            if id < n && logged.contains_key(id) && pages[id] is Ok {
                Ok(page_body(logged[id]))
            } else {
                pages[id]
            },
    )
}

impl Executor {
    /// The page lists of the tables of the catalog.
    fn load_all_table_metas(&self, catalog: &Catalog) -> (entries: Vec<(String, TableMeta)>)
        ensures
            entries_view(entries@) == metas_in(self@.meta_files, catalog@),
    {
        let ghost files = files_view(self.meta_files@);
        let mut entries: Vec<(String, TableMeta)> = Vec::new();
        let mut i: usize = 0;
        while i < catalog.tables.len()
            invariant
                i <= catalog.tables@.len(),
                files == files_view(self.meta_files@),
                entries@.len() == i,
                entries_view(entries@) == metas_in(files, catalog@).take(i as int),
            decreases catalog.tables@.len() - i,
        {
            let ghost before = entries_view(entries@);
            let name: &str = catalog.tables[i].name.as_str();
            assert(catalog@.tables[i as int].name == name@);
            let meta = load_table_meta(&self.meta_files, name);
            let ghost pages = meta.page_ids@;
            entries.push((name.to_owned(), meta));
            i = i + 1;
            assert(entries_view(entries@) =~= before.push(TableView { name: name@, pages }));
            assert(entries_view(entries@) =~= metas_in(files, catalog@).take(i as int));
        }
        assert(entries_view(entries@) =~= metas_in(files, catalog@));
        entries
    }

    /// Brings the pages that the log rebuilt into the buffer pool and the database file.
    fn restore_pages(&mut self)
        requires
            pool_ready(old(self).buffer_pool@),
        ensures
            final(self).flushed(),
            disk_grew(old(self).disk(), final(self).disk()),
            pool_ready(final(self).buffer_pool@),
            final(self).catalog == old(self).catalog,
            final(self).table_pages == old(self).table_pages,
            final(self).wal == old(self).wal,
            final(self).index_manager == old(self).index_manager,
            final(self).data_dir == old(self).data_dir,
            final(self)@ == (DbView {
                pages: restored(old(self)@.pages, old(self)@.wal.pages),
                ..old(self)@
            }),
    {
        let ghost before = self@;
        let ghost logged = self.wal@.pages;
        let n: u32 = self.buffer_pool.num_pages();
        let mut id: u32 = 0;
        assert(pool_contents(self.buffer_pool@) =~= restored_upto(before.pages, logged, 0));
        while id < n
            invariant
                id <= n,
                n == self.buffer_pool@.disk.num_pages,
                pool_ready(self.buffer_pool@),
                disk_grew(old(self).disk(), self.disk()),
                logged == self.wal@.pages,
                before == old(self)@,
                self.catalog == old(self).catalog,
                self.table_pages == old(self).table_pages,
                self.wal == old(self).wal,
                self.index_manager == old(self).index_manager,
                self.data_dir == old(self).data_dir,
                self.catalog_file == old(self).catalog_file,
                self.meta_files == old(self).meta_files,
                n == before.num_pages,
                pool_contents(self.buffer_pool@) == restored_upto(
                    before.pages,
                    logged,
                    id as int,
                ),
            decreases n - id,
        {
            if let Some(page) = self.wal.page(id) {
                let ghost q = self.disk();
                restore_page(&mut self.buffer_pool, id, page.data);
                proof {
                    lemma_disk_grew(old(self).disk(), q, self.disk());
                }
            }
            assert(pool_contents(self.buffer_pool@) =~= restored_upto(
                before.pages,
                logged,
                id + 1,
            ));
            id = id + 1;
        }
        let ghost p = self.buffer_pool@;
        self.buffer_pool.flush_all();
        proof {
            law_flush_all(p, p.frames.len());
            law_flush_all_grows(p, p.frames.len());
            lemma_disk_grew(old(self).disk(), p.disk, self.disk());
            let q = self.buffer_pool@;
            assert forall|k: int| 0 <= k < q.frames.len() implies (#[trigger] q.frames[k]).pins
                == 0 by {
                assert(p.frames[k].pins == 0);
            }
            assert forall|i: u32| i >= n implies (#[trigger] before.pages[i]) is Err by {
                let o = old(self).buffer_pool@;
                assert(before.pages[i] == pool_page(o, i));
                assert(!o.table.contains_key(i));
            }
            assert(self@.pages =~= restored(before.pages, logged));
        }
    }

    /// Drops the indexes and fills them anew from the pages of the tables.
    fn rebuild_indexes(&mut self)
        requires
            pool_ready(old(self).buffer_pool@),
        ensures
            old(self).flushed() ==> final(self).flushed(),
            disk_grew(old(self).disk(), final(self).disk()),
            pool_ready(final(self).buffer_pool@),
            final(self).index_manager.wf(),
            final(self).wal == old(self).wal,
            final(self).data_dir == old(self).data_dir,
            final(self)@ == (DbView {
                indexes: index_load_tables(
                    index_create_all(
                        old(self)@.catalog.index_defs,
                        old(self)@.catalog.index_defs.len(),
                    ),
                    old(self)@.pages,
                    old(self)@.catalog,
                    old(self)@.tables,
                    old(self)@.tables.len(),
                ),
                ..old(self)@
            }),
    {
        let ghost before = self@;
        let ghost defs = before.catalog.index_defs;
        self.index_manager.clear();
        let mut i: usize = 0;
        while i < self.catalog.index_defs.len()
            invariant
                i <= self.catalog.index_defs@.len(),
                before == old(self)@,
                defs == before.catalog.index_defs,
                self.index_manager.wf(),
                self.catalog == old(self).catalog,
                self.table_pages == old(self).table_pages,
                self.wal == old(self).wal,
                self.buffer_pool == old(self).buffer_pool,
                self.data_dir == old(self).data_dir,
                self.catalog_file == old(self).catalog_file,
                self.meta_files == old(self).meta_files,
                self.index_manager@ == index_create_all(defs, i as nat),
            decreases self.catalog.index_defs@.len() - i,
        {
            assert(defs[i as int] == (
                self.catalog.index_defs@[i as int].0@,
                self.catalog.index_defs@[i as int].1@,
            ));
            self.index_manager.create_index(
                self.catalog.index_defs[i].0.as_str(),
                self.catalog.index_defs[i].1.as_str(),
            );
            i = i + 1;
        }
        let ghost created = self.index_manager@;
        let ghost o = self.buffer_pool@;
        let mut t: usize = 0;
        while t < self.table_pages.len()
            invariant
                t <= self.table_pages@.len(),
                before == old(self)@,
                o == old(self).buffer_pool@,
                pool_ready(o),
                pages_kept(o, self.buffer_pool@),
                self.index_manager.wf(),
                self.catalog == old(self).catalog,
                self.table_pages == old(self).table_pages,
                self.wal == old(self).wal,
                self.data_dir == old(self).data_dir,
                self.catalog_file == old(self).catalog_file,
                self.meta_files == old(self).meta_files,
                self.index_manager@ == index_load_tables(
                    created,
                    before.pages,
                    before.catalog,
                    before.tables,
                    t as nat,
                ),
            decreases self.table_pages@.len() - t,
        {
            let ghost name = self.table_pages@[t as int].0@;
            let ghost ids = self.table_pages@[t as int].1.page_ids@;
            assert(before.tables[t as int] == (TableView { name, pages: ids }));
            if let Some(schema) = self.catalog.get(self.table_pages[t].0.as_str()) {
                let ghost loaded = self.index_manager@;
                let mut k: usize = 0;
                while k < self.table_pages[t].1.page_ids.len()
                    invariant
                        k <= ids.len(),
                        t < self.table_pages@.len(),
                        name == self.table_pages@[t as int].0@,
                        ids == self.table_pages@[t as int].1.page_ids@,
                        before == old(self)@,
                        o == old(self).buffer_pool@,
                        pool_ready(o),
                        pages_kept(o, self.buffer_pool@),
                        self.index_manager.wf(),
                        self.catalog == old(self).catalog,
                        self.table_pages == old(self).table_pages,
                        self.wal == old(self).wal,
                        self.data_dir == old(self).data_dir,
                        self.catalog_file == old(self).catalog_file,
                        self.meta_files == old(self).meta_files,
                        self.index_manager@ == index_load_pages(
                            loaded,
                            before.pages,
                            name,
                            schema@,
                            ids,
                            k as nat,
                        ),
                    decreases ids.len() - k,
                {
                    let ghost q = self.buffer_pool@;
                    load_heap_page(
                        &mut self.buffer_pool,
                        &mut self.index_manager,
                        self.table_pages[t].0.as_str(),
                        schema,
                        self.table_pages[t].1.page_ids[k],
                    );
                    proof {
                        lemma_kept(o, q, self.buffer_pool@);
                    }
                    k = k + 1;
                }
            }
            t = t + 1;
        }
        proof {
            if old(self).flushed() {
                assert(dirty_within(o, Seq::<u32>::empty()));
            }
        }
    }

    /// Recovers the database: loads the catalog and the page lists, rebuilds the pages that the log
    /// tells of, and fills the indexes. To be called once after opening, before any statement.
    pub fn recover(&mut self) -> (res: Result<RecoveryInfo, String>)
        requires
            old(self).wf(),
        ensures
            final(self).wf(),
            final(self).dir() == old(self).dir(),
            disk_grew(old(self).disk(), final(self).disk()),
            match (res, catalog_in(old(self)@.catalog_file)) {
                (Err(e), Err(t)) => e@ == t && final(self)@ == old(self)@,
                (Ok(info), Ok(catalog)) => {
                    let records = log_records(old(self)@.wal.log);
                    let had = old(self)@.wal.pages.dom();
                    &&& final(self)@ == recovered_with(old(self)@, catalog)
                    &&& final(self).flushed()
                    &&& info.redone == redone_upto(records, had, records.len())
                    &&& info.undone == undone_from(records, had, 0)
                    &&& info.tables_loaded == catalog.tables.len()
                },
                _ => false,
            },
    {
        let ghost before = self@;
        let file: Option<&[u8]> = match &self.catalog_file {
            Some(v) => Some(v.as_slice()),
            None => None,
        };
        let catalog = match self.catalog_store.load(file) {
            Err(e) => {
                return Err(e);
            },
            Ok(c) => c,
        };
        let ghost c = catalog@;
        let entries = self.load_all_table_metas(&catalog);
        self.catalog = catalog;
        self.table_pages = entries;
        let report = self.wal.recover();
        self.restore_pages();
        let ghost restored_disk = self.disk();
        self.rebuild_indexes();
        proof {
            lemma_disk_grew(old(self).disk(), restored_disk, self.disk());
            assert(self@ =~= recovered_with(before, c));
            lemma_contents_sized(self.buffer_pool@);
            if let Some(buf) = before.catalog_file {
                lemma_catalog_new(buf);
            }
            let tables = metas_in(before.meta_files, c);
            assert(entry_names(tables) =~= table_names(c.tables));
            assert forall|i: int| 0 <= i < c.tables.len() implies {
                let s = #[trigger] c.tables[i];
                &&& s == new_schema(s.name, s.columns)
                &&& table_pages(tables, s.name) is Some
            } by {
                lemma_position(table_names(c.tables), c.tables[i].name, 0);
                assert(table_names(c.tables)[i] == c.tables[i].name);
            }
        }
        let tables_loaded: usize = self.catalog.tables.len();
        Ok(RecoveryInfo { redone: report.redone, undone: report.undone, tables_loaded })
    }
}

impl Executor {
    /// The path of the page list file of a table.
    pub fn table_meta_path(&self, table: &str) -> (path: String)
        ensures
            path@ == self.dir() + "/"@ + table@ + ".pages"@,
    {
        join4(self.data_dir.as_str(), "/", table, ".pages")
    }

    /// The path of the catalog file.
    pub fn catalog_path(&self) -> (path: &str)
        ensures
            path@ == self.catalog_path_text(),
    {
        self.catalog_store.path()
    }

    pub closed spec fn catalog_path_text(&self) -> Seq<char> {
        self.catalog_store.file_path()
    }

    /// The bytes of the write-ahead log.
    pub fn log_bytes(&self) -> (log: &[u8])
        ensures
            log@ == self@.wal.log,
    {
        self.wal.log_bytes()
    }

    /// How many bytes of the log have to be durable before anything else is written.
    pub fn synced_len(&self) -> (n: usize)
        ensures
            n == self@.wal.synced,
    {
        self.wal.synced_len()
    }

    /// The bytes of the catalog file, if there is one.
    pub fn catalog_bytes(&self) -> (file: Option<&[u8]>)
        ensures
            match file {
                Some(b) => self@.catalog_file == Some(b@),
                None => self@.catalog_file is None,
            },
    {
        match &self.catalog_file {
            Some(v) => Some(v.as_slice()),
            None => None,
        }
    }

    /// The bytes of the page list files, by table.
    pub fn meta_files(&self) -> (files: &Vec<(String, Vec<u8>)>)
        ensures
            files_view(files@) == self@.meta_files,
    {
        &self.meta_files
    }

    /// The pages of the database file.
    pub fn file_pages(&self) -> (pages: &Vec<[u8; PAGE_SIZE]>)
        ensures
            file_view(pages@) == self.file(),
    {
        self.buffer_pool.file_pages()
    }

    /// Takes the list of pages written to the database file since it was last taken.
    pub fn take_written(&mut self) -> (ids: Vec<u32>)
        requires
            old(self).wf(),
        ensures
            final(self).wf(),
            final(self)@ == old(self)@,
            final(self).file() == old(self).file(),
            final(self).flushed() == old(self).flushed(),
            final(self).dir() == old(self).dir(),
            ids@ == old(self).written(),
            final(self).written() == Seq::<u32>::empty(),
    {
        let ghost before = self@;
        let ghost p = self.buffer_pool@;
        let ids = self.buffer_pool.take_written();
        proof {
            let q = self.buffer_pool@;
            assert forall|k: int| 0 <= k < q.frames.len() implies (#[trigger] q.frames[k]).pins
                == 0 by {
                assert(p.frames[k].pins == 0);
            }
            assert(pool_contents(q) =~= pool_contents(p));
            assert(self@ =~= before);
            if dirty_within(p, Seq::<u32>::empty()) {
                assert(dirty_within(q, Seq::<u32>::empty())) by {
                    assert(q.frames == p.frames);
                }
            }
        }
        ids
    }

    /// How many page fetches found their page cached.
    pub fn hit_count(&self) -> (n: u64)
        ensures
            n == self.hits(),
    {
        self.buffer_pool.hit_count()
    }

    /// How many page fetches had to read the file.
    pub fn miss_count(&self) -> (n: u64)
        ensures
            n == self.misses(),
    {
        self.buffer_pool.miss_count()
    }

    pub closed spec fn hits(&self) -> u64 {
        self.buffer_pool@.hits
    }

    pub closed spec fn misses(&self) -> u64 {
        self.buffer_pool@.misses
    }

    /// The database file has no more pages than are allocated, and each has the size of a page.
    pub proof fn law_file_pages(&self)
        requires
            self.wf(),
        ensures
            self.file().len() <= self@.num_pages,
            forall|i: int|
                0 <= i < self.file().len() ==> (#[trigger] self.file()[i]).len() == PAGE_SIZE,
    {
    }

    /// If no page waits to be written, the database file holds every page that can be read, with its
    /// checksum: reading the file gives what the executor sees.
    pub proof fn law_flushed(&self)
        requires
            self.wf(),
            self.flushed(),
        ensures
            stored_pages(self.file()) == self@.pages,
            self.file().len() == self@.num_pages,
    {
        let p = self.buffer_pool@;
        if p.disk.file.len() < p.disk.num_pages {
            let id = p.disk.file.len() as u32;
            assert(p.table.contains_key(id));
            let i = p.table[id] as int;
            assert(p.frames[i].pins == 0);
            assert(frame_clean(p, i));
            assert(!p.frames[i].dirty) by {
                if p.frames[i].dirty {
                    assert(Seq::<u32>::empty().contains((p.frames[i].page->0).id));
                }
            }
        }
        assert forall|id: u32| stored_pages(p.disk.file)[id] == #[trigger] pool_page(p, id) by {
            if p.table.contains_key(id) {
                let i = p.table[id] as int;
                assert(p.frames[i].pins == 0);
                assert(frame_clean(p, i));
                assert(!p.frames[i].dirty) by {
                    if p.frames[i].dirty {
                        assert(Seq::<u32>::empty().contains((p.frames[i].page->0).id));
                    }
                }
            }
        }
        assert(stored_pages(self.file()) =~= self@.pages) by {
            assert forall|id: u32| #[trigger] stored_pages(p.disk.file)[id]
                == self@.pages[id] by {
                assert(stored_pages(p.disk.file)[id] == pool_page(p, id));
            }
        }
    }
}

/// Puts a tuple into the first page of `ids` that has room for it. `None` if none has.
fn insert_in_pages(
    pool: &mut BufferPool,
    wal: &mut WalManager,
    ids: &Vec<u32>,
    txn: u32,
    tuple: &[u8],
) -> (res: Result<Option<Rid>, String>)
    requires
        pool_ready(old(pool)@),
        old(wal).wf(),
        old(wal)@.lsn < u64::MAX,
    ensures
        final(wal).wf(),
        match place_for(pool_contents(old(pool)@), ids@, tuple@.len(), 0) {
            Place::Fault(id, e) => {
                &&& pages_kept(old(pool)@, final(pool)@)
                &&& final(wal)@ == old(wal)@
                &&& res is Err
                &&& (res->Err_0)@ == msg_fetch(id, e)
            },
            Place::New => {
                &&& pages_kept(old(pool)@, final(pool)@)
                &&& final(wal)@ == old(wal)@
                &&& res == Ok::<Option<Rid>, String>(None)
            },
            Place::At(id) => {
                let d = pool_contents(old(pool)@)[id]->Ok_0;
                &&& final(wal)@ == wal_insert(old(wal)@, txn, id, tuple@)
                &&& if log_takes(old(wal)@, id, tuple@.len()) {
                    &&& page_changed(
                        old(pool)@,
                        final(pool)@,
                        id,
                        page_body(page_try_put(d, tuple@)),
                    )
                    &&& res == Ok::<Option<Rid>, String>(
                        Some(Rid { page_id: id, slot_id: slot_for(d, tuple@.len()) }),
                    )
                } else {
                    &&& pages_kept(old(pool)@, final(pool)@)
                    &&& res is Err
                    &&& (res->Err_0)@ == "wal insert: "@ + storage_message(StorageError::PageFull)
                }
            },
        },
{
    let ghost p = pool@;
    let ghost pages = pool_contents(p);
    let mut k: usize = 0;
    while k < ids.len()
        invariant
            k <= ids@.len(),
            pool_ready(p),
            pages_kept(p, pool@),
            p == old(pool)@,
            pages == pool_contents(p),
            wal.wf(),
            wal@ == old(wal)@,
            wal@.lsn < u64::MAX,
            place_for(pages, ids@, tuple@.len(), 0) == place_for(
                pages,
                ids@,
                tuple@.len(),
                k as int,
            ),
        decreases ids@.len() - k,
    {
        let ghost q = pool@;
        let put = insert_in_page(pool, wal, txn, ids[k], tuple);
        proof {
            lemma_kept(p, q, pool@);
        }
        match put {
            Err(e) => {
                return Err(e);
            },
            Ok(Some(slot)) => {
                return Ok(Some(Rid { page_id: ids[k], slot_id: slot }));
            },
            Ok(None) => {},
        }
        k = k + 1;
    }
    Ok(None)
}

/// Pages of lists stay on a file that lost none.
proof fn lemma_lists_kept(tables: Seq<TableView>, a: DiskView, b: DiskView)
    requires
        disk_grew(a, b),
        lists_on_file(tables, a.file),
    ensures
        lists_on_file(tables, b.file),
{
    assert forall|i: int, k: int|
        0 <= i < tables.len() && 0 <= k < tables[i].pages.len() implies page_valid(
        b.file[(#[trigger] tables[i].pages[k]) as int],
    ) by {
        assert(page_valid(a.file[tables[i].pages[k] as int]));
    }
}

/// A list of pages that are on the file joins the others.
proof fn lemma_lists_put(
    tables: Seq<TableView>,
    name: Seq<char>,
    pages: Seq<u32>,
    file: Seq<Seq<u8>>,
)
    requires
        lists_on_file(tables, file),
        forall|k: int|
            0 <= k < pages.len() ==> (#[trigger] pages[k]) < file.len() && page_valid(
                file[pages[k] as int],
            ),
    ensures
        lists_on_file(tables_put(tables, name, pages), file),
{
    let after = tables_put(tables, name, pages);
    lemma_position(entry_names(tables), name, 0);
    assert forall|i: int, k: int| 0 <= i < after.len() && 0 <= k < after[i].pages.len() implies {
        let id = #[trigger] after[i].pages[k];
        id < file.len() && page_valid(file[id as int])
    } by {
        if i < tables.len() && after[i] == tables[i] {
            assert(tables[i].pages[k] < file.len());
        } else {
            assert(after[i].pages == pages);
            assert(pages[k] < file.len());
        }
    }
}

/// The list of a table with one more page.
proof fn lemma_lists_push(
    tables: Seq<TableView>,
    name: Seq<char>,
    id: u32,
    a: DiskView,
    b: DiskView,
)
    requires
        disk_grew(a, b),
        lists_on_file(tables, a.file),
        table_pages(tables, name) is Some,
        id < b.file.len(),
        page_valid(b.file[id as int]),
    ensures
        lists_on_file(tables_put(tables, name, (table_pages(tables, name)->0).push(id)), b.file),
{
    lemma_lists_kept(tables, a, b);
    let ids = table_pages(tables, name)->0;
    lemma_position(entry_names(tables), name, 0);
    let i = position(entry_names(tables), name, 0)->0;
    assert forall|k: int| 0 <= k < ids.len() implies (#[trigger] ids[k]) < b.file.len()
        && page_valid(b.file[ids[k] as int]) by {
        assert(tables[i].pages[k] < b.file.len());
    }
    lemma_lists_put(tables, name, ids.push(id), b.file);
}

/// Writing a page leaves a pool ready and its pages as they were, and the page is on the file.
proof fn lemma_flushed(p: PoolView, id: u32)
    requires
        pool_ready(p),
    ensures
        pool_ready(pool_flush(p, id)),
        pool_contents(pool_flush(p, id)) == pool_contents(p),
        pool_flush(p, id).disk.num_pages == p.disk.num_pages,
        disk_grew(p.disk, pool_flush(p, id).disk),
        pool_contents(p)[id] is Ok ==> {
            let file = pool_flush(p, id).disk.file;
            id < file.len() && page_valid(file[id as int])
        },
{
    law_flushed_page_is_on_file(p, id);
    assert(pool_contents(p)[id] == pool_page(p, id));
    if p.table.contains_key(id) {
        law_flush(p, p.table[id] as int);
        let q = pool_flush(p, id);
        assert forall|k: int| 0 <= k < q.frames.len() implies (#[trigger] q.frames[k]).pins == 0 by {
            assert(p.frames[k].pins == 0);
        }
    }
}

} // verus!
