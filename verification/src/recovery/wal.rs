//! The write-ahead log: appending records, and recovery from them.
use crate::bytes::{get_u32, holds_at, put_bytes, un32};
use crate::recovery::log_record::{
    framed, law_record_round_trip, lemma_record_back, lemma_record_len, lemma_sized_back,
    record_bytes, record_of, sized, LogRecord, LogView,
};
use crate::storage::error::StorageError;
use crate::storage::page::{
    header_of, law_blank, law_delete, law_insert, law_update, page_blank, page_count, page_drop,
    page_fits, page_get, page_live, page_overwrite, page_put, page_room, page_takes, page_wf,
    slot_at, PAGE_SIZE, Page,
};
use std::collections::{HashMap, HashSet};
use vstd::prelude::*;
use vstd::slice::slice_to_vec;

verus! {

broadcast use vstd::std_specs::hash::group_hash_axioms;

/// The records in `log` from `off` on: whole frames one after the other, up to the first that is
/// cut short. A frame that holds no known record is passed over.
pub open spec fn records_from(log: Seq<u8>, off: int) -> Seq<LogView>
    decreases log.len() - off,
{
    if off < 0 || off + 4 > log.len() {
        Seq::empty()
    } else {
        let next = off + 4 + un32(log, off);
        if next > log.len() {
            Seq::empty()
        } else {
            match record_of(log.subrange(off + 4, next)) {
                Some(r) => seq![r] + records_from(log, next),
                None => records_from(log, next),
            }
        }
    }
}

/// The records of a log.
pub open spec fn log_records(log: Seq<u8>) -> Seq<LogView> {
    records_from(log, 0)
}

/// The log sequence number after those of `records`; the largest one where they are used up.
pub open spec fn next_lsn(records: Seq<LogView>) -> u64
    decreases records.len(),
{
    if records.len() == 0 {
        0
    } else {
        let before = next_lsn(records.drop_last());
        let n = records.last().number();
        if n < before {
            before
        } else if n == u64::MAX {
            n
        } else {
            (n + 1) as u64
        }
    }
}

/// The transaction id after those of `records`; the largest one where they are used up.
pub open spec fn next_txn(records: Seq<LogView>) -> u32
    decreases records.len(),
{
    if records.len() == 0 {
        1
    } else {
        let before = next_txn(records.drop_last());
        match records.last().txn() {
            Some(n) => if n < before {
                before
            } else if n == u32::MAX {
                n
            } else {
                (n + 1) as u32
            },
            None => before,
        }
    }
}

/// Where the last of the whole frames from `off` on ends.
pub open spec fn whole_end(log: Seq<u8>, off: int) -> int
    decreases log.len() - off,
{
    if off < 0 || off + 4 > log.len() || off + 4 + un32(log, off) > log.len() {
        off
    } else {
        whole_end(log, off + 4 + un32(log, off))
    }
}

/// A log without the record at its end that was cut short, if there is one.
pub open spec fn whole_part(log: Seq<u8>) -> Seq<u8> {
    log.take(whole_end(log, 0))
}

/// The mathematical counterpart of `WalManager`.
#[verifier::ext_equal]
pub struct WalView {
    /// The bytes of the log.
    pub log: Seq<u8>,
    /// How many of them have been made durable.
    pub synced: nat,
    pub lsn: u64,
    pub next_txn: u32,
    pub active: Set<u32>,
    /// The bytes of the pages that were rebuilt or logged to.
    pub pages: Map<u32, Seq<u8>>,
}

/// A log that is opened: without a record that was cut short, all of it durable. Log sequence
/// numbers and transaction ids go on after those of the log.
pub open spec fn wal_opened(log: Seq<u8>) -> WalView {
    WalView {
        log: whole_part(log),
        synced: whole_part(log).len(),
        lsn: next_lsn(log_records(log)),
        next_txn: next_txn(log_records(log)),
        active: Set::empty(),
        pages: Map::empty(),
    }
}

/// The log after `r` was appended.
pub open spec fn wal_append(w: WalView, r: LogView) -> WalView {
    WalView { log: w.log + framed(r.numbered(w.lsn)), lsn: (w.lsn + 1) as u64, ..w }
}

/// All of the log is durable.
pub open spec fn wal_sync(w: WalView) -> WalView {
    WalView { synced: w.log.len(), ..w }
}

pub open spec fn wal_begin(w: WalView) -> WalView {
    wal_append(
        WalView { next_txn: (w.next_txn + 1) as u32, active: w.active.insert(w.next_txn), ..w },
        LogView::Begin { lsn: 0, txn_id: w.next_txn },
    )
}

pub open spec fn wal_commit(w: WalView, txn_id: u32) -> WalView {
    let v = wal_sync(wal_append(w, LogView::Commit { lsn: 0, txn_id }));
    WalView { active: v.active.remove(txn_id), ..v }
}

pub open spec fn wal_abort(w: WalView, txn_id: u32) -> WalView {
    let v = wal_sync(wal_append(w, LogView::Abort { lsn: 0, txn_id }));
    WalView { active: v.active.remove(txn_id), ..v }
}

/// The bytes of page `id`, blank if it is not there yet.
pub open spec fn page_or_blank(pages: Map<u32, Seq<u8>>, id: u32) -> Seq<u8> {
    if pages.contains_key(id) {
        pages[id]
    } else {
        page_blank(id)
    }
}

/// A page after a tuple was inserted, if it fits.
pub open spec fn page_try_put(d: Seq<u8>, t: Seq<u8>) -> Seq<u8> {
    if page_fits(d, t.len()) {
        page_put(d, t)
    } else {
        d
    }
}

/// A page after a tuple was deleted, if it is there.
pub open spec fn page_try_drop(d: Seq<u8>, slot: u16) -> Seq<u8> {
    if page_live(d, slot as int) {
        page_drop(d, slot as int)
    } else {
        d
    }
}

/// A page after a tuple was inserted and deleted again, if it fits: its slot is taken, but dead.
pub open spec fn page_try_skip(d: Seq<u8>, t: Seq<u8>) -> Seq<u8> {
    if page_fits(d, t.len()) {
        page_try_drop(page_put(d, t), page_count(d))
    } else {
        d
    }
}

/// A tuple can be overwritten in place by `t`.
pub open spec fn page_can_overwrite(d: Seq<u8>, slot: u16, t: Seq<u8>) -> bool {
    page_takes(d, slot as int, t.len())
}

/// A page after a tuple was overwritten in place, if it is there and long enough.
pub open spec fn page_try_overwrite(d: Seq<u8>, slot: u16, t: Seq<u8>) -> Seq<u8> {
    if page_can_overwrite(d, slot, t) {
        page_overwrite(d, slot as int, t)
    } else {
        d
    }
}

/// Logging an insertion: the log's own copy of the page takes the tuple, and if it fits a record is
/// appended.
pub open spec fn wal_insert(w: WalView, txn_id: u32, page_id: u32, data: Seq<u8>) -> WalView {
    let d = page_or_blank(w.pages, page_id);
    let v = WalView { pages: w.pages.insert(page_id, page_try_put(d, data)), ..w };
    if page_fits(d, data.len()) {
        wal_append(
            v,
            LogView::Insert { lsn: 0, txn_id, page_id, slot_id: page_count(d), data },
        )
    } else {
        v
    }
}

/// The tuple that a logged deletion saves: what the log's own copy of the page holds.
pub open spec fn wal_old_data(w: WalView, page_id: u32, slot_id: u16) -> Seq<u8> {
    if w.pages.contains_key(page_id) {
        match page_get(w.pages[page_id], slot_id as int) {
            Some(t) => t,
            None => Seq::empty(),
        }
    } else {
        Seq::empty()
    }
}

/// Logging a deletion.
pub open spec fn wal_delete(w: WalView, txn_id: u32, page_id: u32, slot_id: u16) -> WalView {
    let pages = if w.pages.contains_key(page_id) {
        w.pages.insert(page_id, page_try_drop(w.pages[page_id], slot_id))
    } else {
        w.pages
    };
    wal_append(
        WalView { pages, ..w },
        LogView::Delete {
            lsn: 0,
            txn_id,
            page_id,
            slot_id,
            old_data: wal_old_data(w, page_id, slot_id),
        },
    )
}

/// Logging an update.
pub open spec fn wal_update(
    w: WalView,
    txn_id: u32,
    page_id: u32,
    slot_id: u16,
    old_data: Seq<u8>,
    new_data: Seq<u8>,
) -> WalView {
    wal_append(w, LogView::Update { lsn: 0, txn_id, page_id, slot_id, old_data, new_data })
}

/// Some record says that the transaction committed.
pub open spec fn committed(records: Seq<LogView>, id: u32) -> bool {
    exists|i: int|
        0 <= i < records.len() && (#[trigger] records[i] matches LogView::Commit { txn_id, .. }
            && txn_id == id)
}

/// Some record says that the transaction aborted.
pub open spec fn aborted(records: Seq<LogView>, id: u32) -> bool {
    exists|i: int|
        0 <= i < records.len() && (#[trigger] records[i] matches LogView::Abort { txn_id, .. }
            && txn_id == id)
}

/// Some record says that the transaction started.
pub open spec fn started(records: Seq<LogView>, id: u32) -> bool {
    exists|i: int|
        0 <= i < records.len() && (#[trigger] records[i] matches LogView::Begin { txn_id, .. }
            && txn_id == id)
}

/// The transaction started and neither committed nor aborted.
pub open spec fn incomplete(records: Seq<LogView>, id: u32) -> bool {
    started(records, id) && !committed(records, id) && !aborted(records, id)
}

/// Replaying one record on `pages`.
pub open spec fn redo_one(pages: Map<u32, Seq<u8>>, r: LogView) -> Map<u32, Seq<u8>> {
    match r {
        LogView::Insert { page_id, data, .. } => pages.insert(
            page_id,
            page_try_put(page_or_blank(pages, page_id), data),
        ),
        LogView::Delete { page_id, slot_id, .. } => if pages.contains_key(page_id) {
            pages.insert(page_id, page_try_drop(pages[page_id], slot_id))
        } else {
            pages
        },
        LogView::Update { page_id, slot_id, new_data, .. } => pages.insert(
            page_id,
            page_try_overwrite(page_or_blank(pages, page_id), slot_id, new_data),
        ),
        _ => pages,
    }
}

/// Leaving out one record. An insertion still takes its slot, so that those after it keep their
/// numbers.
pub open spec fn skip_one(pages: Map<u32, Seq<u8>>, r: LogView) -> Map<u32, Seq<u8>> {
    match r {
        LogView::Insert { page_id, data, .. } => pages.insert(
            page_id,
            page_try_skip(page_or_blank(pages, page_id), data),
        ),
        _ => pages,
    }
}

/// The record belongs to a transaction in `done`.
pub open spec fn belongs(r: LogView, done: Set<u32>) -> bool {
    r.txn() matches Some(id) && done.contains(id)
}

/// One record: it is replayed if its transaction is in `done`, and left out otherwise.
pub open spec fn redo_step(pages: Map<u32, Seq<u8>>, r: LogView, done: Set<u32>) -> Map<
    u32,
    Seq<u8>,
> {
    if belongs(r, done) {
        redo_one(pages, r)
    } else {
        skip_one(pages, r)
    }
}

/// Going through the first `n` records in order: those of transactions in `done` are replayed, and
/// the others are left out.
pub open spec fn redo_in(records: Seq<LogView>, done: Set<u32>, n: nat) -> Map<u32, Seq<u8>>
    decreases n,
{
    if n == 0 {
        Map::empty()
    } else {
        redo_step(redo_in(records, done, (n - 1) as nat), records[n - 1], done)
    }
}

/// The transactions that committed.
pub open spec fn committed_set(records: Seq<LogView>) -> Set<u32> {
    Set::new(|id: u32| committed(records, id))
}

/// Going through the first `n` records in order: those of committed transactions are replayed, and
/// the others are left out.
pub open spec fn redo(records: Seq<LogView>, n: nat) -> Map<u32, Seq<u8>> {
    redo_in(records, committed_set(records), n)
}

/// A record on a tuple.
pub open spec fn on_tuple(r: LogView) -> bool {
    r is Insert || r is Delete || r is Update
}

/// Replaying the record makes page `id` if it is not there.
pub open spec fn makes_page(r: LogView, id: u32) -> bool {
    match r {
        LogView::Insert { page_id, .. } => page_id == id,
        LogView::Update { page_id, .. } => page_id == id,
        _ => false,
    }
}

/// Page `id` is one of `had`, or one of the first `n` records is of a committed transaction and
/// makes it.
pub open spec fn page_there(records: Seq<LogView>, had: Set<u32>, id: u32, n: int) -> bool {
    had.contains(id) || exists|j: int|
        0 <= j < n && makes_page(#[trigger] records[j], id) && committed(
            records,
            records[j].txn()->0,
        )
}

/// Record `i` counts as redone: it is on a tuple and of a committed transaction, and the page of a
/// deletion is there by then.
pub open spec fn is_redone(records: Seq<LogView>, had: Set<u32>, i: int) -> bool {
    let r = records[i];
    &&& on_tuple(r)
    &&& committed(records, r.txn()->0)
    &&& r matches LogView::Delete { page_id, .. } ==> page_there(records, had, page_id, i)
}

/// A record after `i` is a deletion from page `id` of an incomplete transaction.
pub open spec fn deleted_later(records: Seq<LogView>, id: u32, i: int) -> bool {
    exists|j: int|
        i < j < records.len() && (#[trigger] records[j] matches LogView::Delete {
            txn_id,
            page_id,
            ..
        } && page_id == id && incomplete(records, txn_id))
}

/// Record `i` counts as undone: it is of an incomplete transaction, and a deletion, or an insertion
/// into a page that committed transactions or later deletions make.
pub open spec fn is_undone(records: Seq<LogView>, had: Set<u32>, i: int) -> bool {
    match records[i] {
        LogView::Insert { txn_id, page_id, .. } => incomplete(records, txn_id) && (page_there(
            records,
            had,
            page_id,
            records.len() as int,
        ) || deleted_later(records, page_id, i)),
        LogView::Delete { txn_id, .. } => incomplete(records, txn_id),
        _ => false,
    }
}

/// How many of the first `n` records count as redone.
pub open spec fn redone_upto(records: Seq<LogView>, had: Set<u32>, n: nat) -> nat
    decreases n,
{
    if n == 0 {
        0
    } else {
        redone_upto(records, had, (n - 1) as nat) + if is_redone(records, had, n - 1) {
            1nat
        } else {
            0
        }
    }
}

/// How many of the records from `i` on count as undone.
pub open spec fn undone_from(records: Seq<LogView>, had: Set<u32>, i: int) -> nat
    decreases records.len() - i,
{
    if i < 0 || i >= records.len() {
        0
    } else {
        undone_from(records, had, i + 1) + if is_undone(records, had, i) {
            1nat
        } else {
            0
        }
    }
}

/// The pages that recovery rebuilds from `records`.
pub open spec fn recovered(records: Seq<LogView>) -> Map<u32, Seq<u8>> {
    redo(records, records.len())
}

/// The bytes of pages.
pub open spec fn pages_view(pages: Map<u32, Page>) -> Map<u32, Seq<u8>> {
    pages.map_values(|p: Page| p.data@)
}

/// What recovery did.
#[derive(Debug)]
pub struct RecoveryReport {
    /// How many insertions, deletions and updates of committed transactions were replayed.
    pub redone: usize,
    /// How many changes of incomplete transactions were kept from the pages: their deletions, and
    /// their insertions into pages that the rest of the log makes.
    pub undone: usize,
    pub incomplete_txns: HashSet<u32>,
}

impl Default for RecoveryReport {
    fn default() -> (r: Self)
        ensures
            r.redone == 0,
            r.undone == 0,
            r.incomplete_txns@ == Set::<u32>::empty(),
    {
        RecoveryReport { redone: 0, undone: 0, incomplete_txns: HashSet::new() }
    }
}

/// Writes the write-ahead log and recovers from it. The log is held in memory as the bytes of its
/// file; `synced_len` tells how much of it has to be durable.
pub struct WalManager {
    log: Vec<u8>,
    synced: usize,
    current_lsn: u64,
    next_txn_id: u32,
    active_txns: HashSet<u32>,
    pub pages: HashMap<u32, Page>,
}

impl View for WalManager {
    type V = WalView;

    closed spec fn view(&self) -> WalView {
        WalView {
            log: self.log@,
            synced: self.synced as nat,
            lsn: self.current_lsn,
            next_txn: self.next_txn_id,
            active: self.active_txns@,
            pages: pages_view(self.pages@),
        }
    }
}

/// Reads the records of a log.
fn read_records(log: &[u8]) -> (records: Vec<LogRecord>)
    ensures
        records_view(records@) == log_records(log@),
{
    let len: usize = log.len();
    let mut records: Vec<LogRecord> = Vec::new();
    let mut off: usize = 0;
    assert(records_view(records@) + log_records(log@) =~= log_records(log@));
    loop
        invariant
            len == log@.len(),
            off <= len,
            log_records(log@) == records_view(records@) + records_from(log@, off as int),
        decreases len - off,
    {
        if len - off < 4 {
            assert(records_view(records@) + Seq::<LogView>::empty() =~= records_view(records@));
            return records;
        }
        let n: usize = get_u32(log, off) as usize;
        if len - off - 4 < n {
            assert(records_view(records@) + Seq::<LogView>::empty() =~= records_view(records@));
            return records;
        }
        let next: usize = off + 4 + n;
        let frame = vstd::slice::slice_subrange(log, off + 4, next);
        let ghost before = records_view(records@);
        match LogRecord::from_bytes(frame) {
            Some(r) => {
                let ghost v = r@;
                records.push(r);
                proof {
                    assert(records_view(records@) =~= before.push(v));
                    assert(before + (seq![v] + records_from(log@, next as int)) =~= before.push(v)
                        + records_from(log@, next as int));
                }
            },
            None => {},
        }
        off = next;
    }
}

pub open spec fn records_view(s: Seq<LogRecord>) -> Seq<LogView> {
    Seq::new(s.len(), |i: int| s[i]@)
}

/// Computes the log sequence number to go on with.
fn following_lsn(records: &Vec<LogRecord>) -> (n: u64)
    ensures
        n == next_lsn(records_view(records@)),
{
    let ghost all = records_view(records@);
    let mut next: u64 = 0;
    let mut i: usize = 0;
    while i < records.len()
        invariant
            i <= records@.len(),
            all == records_view(records@),
            next == next_lsn(all.take(i as int)),
        decreases records@.len() - i,
    {
        let n: u64 = records[i].lsn();
        assert(all.take(i + 1).drop_last() =~= all.take(i as int));
        assert(all.take(i + 1).last() == records@[i as int]@);
        if n >= next {
            next = if n == u64::MAX {
                n
            } else {
                n + 1
            };
        }
        i = i + 1;
    }
    assert(all.take(i as int) =~= all);
    next
}

/// Computes the transaction id to go on with.
fn following_txn(records: &Vec<LogRecord>) -> (n: u32)
    ensures
        n == next_txn(records_view(records@)),
{
    let ghost all = records_view(records@);
    let mut next: u32 = 1;
    let mut i: usize = 0;
    while i < records.len()
        invariant
            i <= records@.len(),
            all == records_view(records@),
            next == next_txn(all.take(i as int)),
        decreases records@.len() - i,
    {
        assert(all.take(i + 1).drop_last() =~= all.take(i as int));
        assert(all.take(i + 1).last() == records@[i as int]@);
        if let Some(n) = records[i].txn_id() {
            if n >= next {
                next = if n == u32::MAX {
                    n
                } else {
                    n + 1
                };
            }
        }
        i = i + 1;
    }
    assert(all.take(i as int) =~= all);
    next
}

/// Finds where the last whole frame of a log ends.
fn end_of_frames(log: &[u8]) -> (end: usize)
    ensures
        end == whole_end(log@, 0),
        end <= log@.len(),
{
    let len: usize = log.len();
    let mut off: usize = 0;
    loop
        invariant
            len == log@.len(),
            off <= len,
            whole_end(log@, 0) == whole_end(log@, off as int),
        decreases len - off,
    {
        if len - off < 4 {
            return off;
        }
        let n: usize = get_u32(log, off) as usize;
        if len - off - 4 < n {
            return off;
        }
        off = off + 4 + n;
    }
}

/// Every page is stored under its own id.
pub open spec fn ids_ok(pages: Map<u32, Page>) -> bool {
    forall|id: u32| #[trigger] pages.contains_key(id) ==> pages[id].id == id
}

/// Inserts a tuple into a page, which is created if it is not there.
fn insert_into(pages: &mut HashMap<u32, Page>, page_id: u32, data: &[u8]) -> (slot: Option<u16>)
    requires
        ids_ok(old(pages)@),
    ensures
        ids_ok(final(pages)@),
        pages_view(final(pages)@) == pages_view(old(pages)@).insert(
            page_id,
            page_try_put(page_or_blank(pages_view(old(pages)@), page_id), data@),
        ),
        match slot {
            Some(slot_id) => page_fits(
                page_or_blank(pages_view(old(pages)@), page_id),
                data@.len(),
            ) && slot_id == page_count(page_or_blank(pages_view(old(pages)@), page_id)),
            None => !page_fits(page_or_blank(pages_view(old(pages)@), page_id), data@.len()),
        },
{
    let ghost before = pages_view(pages@);
    let mut page = match pages.remove(&page_id) {
        Some(p) => p,
        None => Page::new(page_id),
    };
    let slot = page.insert_tuple(data);
    pages.insert(page_id, page);
    assert(pages_view(pages@) =~= before.insert(
        page_id,
        page_try_put(page_or_blank(before, page_id), data@),
    ));
    slot
}

/// Deletes a tuple from a page, if the page is there.
fn delete_from(pages: &mut HashMap<u32, Page>, page_id: u32, slot_id: u16) -> (there: bool)
    requires
        ids_ok(old(pages)@),
    ensures
        ids_ok(final(pages)@),
        there == pages_view(old(pages)@).contains_key(page_id),
        pages_view(final(pages)@) == (if there {
            pages_view(old(pages)@).insert(
                page_id,
                page_try_drop(pages_view(old(pages)@)[page_id], slot_id),
            )
        } else {
            pages_view(old(pages)@)
        }),
{
    let ghost before = pages_view(pages@);
    match pages.remove(&page_id) {
        Some(p) => {
            let mut page = p;
            page.delete_tuple(slot_id);
            pages.insert(page_id, page);
            assert(pages_view(pages@) =~= before.insert(
                page_id,
                page_try_drop(before[page_id], slot_id),
            ));
            true
        },
        None => {
            assert(pages_view(pages@) =~= before);
            false
        },
    }
}

/// Takes the slot of a tuple that is left out, in a page that is created if it is not there.
fn skip_in(pages: &mut HashMap<u32, Page>, page_id: u32, data: &[u8])
    requires
        ids_ok(old(pages)@),
    ensures
        ids_ok(final(pages)@),
        pages_view(final(pages)@) == pages_view(old(pages)@).insert(
            page_id,
            page_try_skip(page_or_blank(pages_view(old(pages)@), page_id), data@),
        ),
{
    let ghost before = pages_view(pages@);
    let slot = insert_into(pages, page_id, data);
    if let Some(slot_id) = slot {
        delete_from(pages, page_id, slot_id);
    }
    assert(pages_view(pages@) =~= before.insert(
        page_id,
        page_try_skip(page_or_blank(before, page_id), data@),
    ));
}

/// Overwrites a tuple in place, in a page that is created if it is not there.
fn update_in(pages: &mut HashMap<u32, Page>, page_id: u32, slot_id: u16, data: &[u8])
    requires
        ids_ok(old(pages)@),
    ensures
        ids_ok(final(pages)@),
        pages_view(final(pages)@) == pages_view(old(pages)@).insert(
            page_id,
            page_try_overwrite(page_or_blank(pages_view(old(pages)@), page_id), slot_id, data@),
        ),
{
    let ghost before = pages_view(pages@);
    let mut page = match pages.remove(&page_id) {
        Some(p) => p,
        None => Page::new(page_id),
    };
    page.update_tuple(slot_id, data);
    pages.insert(page_id, page);
    assert(pages_view(pages@) =~= before.insert(
        page_id,
        page_try_overwrite(page_or_blank(before, page_id), slot_id, data@),
    ));
}

/// What a record can say about its transaction as a whole.
enum Mark {
    Begin,
    Commit,
    Abort,
}

/// The record says `mark` of transaction `id`.
spec fn says(r: LogView, id: u32, mark: Mark) -> bool {
    match r {
        LogView::Begin { txn_id, .. } => mark is Begin && txn_id == id,
        LogView::Commit { txn_id, .. } => mark is Commit && txn_id == id,
        LogView::Abort { txn_id, .. } => mark is Abort && txn_id == id,
        _ => false,
    }
}

/// One of the first `n` records says `mark` of transaction `id`.
spec fn in_first(records: Seq<LogView>, n: int, id: u32, mark: Mark) -> bool {
    exists|i: int| 0 <= i < n && says(#[trigger] records[i], id, mark)
}

impl WalManager {
    /// Every page is stored under its own id.
    pub closed spec fn wf(&self) -> bool {
        &&& ids_ok(self.pages@)
        &&& self.synced <= self.log@.len()
    }

    /// Starts on the bytes of a log, all of them durable. A record at the end that was cut short is
    /// dropped. Log sequence numbers and transaction ids go on after those of the log.
    pub fn new(log: Vec<u8>) -> (wal: Self)
        ensures
            wal.wf(),
            wal@ == wal_opened(log@),
    {
        let records = read_records(log.as_slice());
        let current_lsn: u64 = following_lsn(&records);
        let next_txn_id: u32 = following_txn(&records);
        let synced: usize = end_of_frames(log.as_slice());
        let mut log = log;
        let ghost all = log@;
        log.truncate(synced);
        assert(log@ =~= whole_part(all));
        let wal = Self {
            log,
            synced,
            current_lsn,
            next_txn_id,
            active_txns: HashSet::new(),
            pages: HashMap::new(),
        };
        assert(wal@.pages =~= Map::empty());
        wal
    }

    /// Appends a record under the next log sequence number.
    fn append(&mut self, record: LogRecord) -> (lsn: u64)
        requires
            old(self).current_lsn < u64::MAX,
            old(self).wf(),
        ensures
            lsn == old(self)@.lsn,
            final(self)@ == wal_append(old(self)@, record@),
            final(self).wf(),
            final(self).pages == old(self).pages,
    {
        let lsn: u64 = self.current_lsn;
        self.current_lsn = lsn + 1;
        let numbered = match record {
            LogRecord::Begin { txn_id, .. } => LogRecord::Begin { lsn, txn_id },
            LogRecord::Insert { txn_id, page_id, slot_id, data, .. } => LogRecord::Insert {
                lsn,
                txn_id,
                page_id,
                slot_id,
                data,
            },
            LogRecord::Delete { txn_id, page_id, slot_id, old_data, .. } => LogRecord::Delete {
                lsn,
                txn_id,
                page_id,
                slot_id,
                old_data,
            },
            LogRecord::Update { txn_id, page_id, slot_id, old_data, new_data, .. } => {
                LogRecord::Update { lsn, txn_id, page_id, slot_id, old_data, new_data }
            },
            LogRecord::Commit { txn_id, .. } => LogRecord::Commit { lsn, txn_id },
            LogRecord::Abort { txn_id, .. } => LogRecord::Abort { lsn, txn_id },
            LogRecord::Checkpoint { .. } => LogRecord::Checkpoint { lsn },
        };
        let bytes = numbered.to_bytes();
        put_bytes(&mut self.log, bytes.as_slice());
        lsn
    }

    /// Starts a transaction.
    pub fn begin_txn(&mut self) -> (txn_id: u32)
        requires
            old(self).wf(),
            old(self)@.next_txn < u32::MAX,
            old(self)@.lsn < u64::MAX,
        ensures
            final(self).wf(),
            txn_id == old(self)@.next_txn,
            final(self)@ == wal_begin(old(self)@),
    {
        let txn_id: u32 = self.next_txn_id;
        self.next_txn_id = txn_id + 1;
        self.active_txns.insert(txn_id);
        self.append(LogRecord::Begin { lsn: 0, txn_id });
        txn_id
    }

    /// Logs an insertion. Returns the slot the tuple takes.
    pub fn log_insert(&mut self, txn_id: u32, page_id: u32, data: &[u8]) -> (res: Result<
        u16,
        StorageError,
    >)
        requires
            old(self).wf(),
            old(self)@.lsn < u64::MAX,
        ensures
            final(self).wf(),
            final(self)@ == wal_insert(old(self)@, txn_id, page_id, data@),
            match res {
                Ok(slot_id) => page_fits(page_or_blank(old(self)@.pages, page_id), data@.len())
                    && slot_id == page_count(page_or_blank(old(self)@.pages, page_id)),
                Err(e) => e == StorageError::PageFull && !page_fits(
                    page_or_blank(old(self)@.pages, page_id),
                    data@.len(),
                ),
            },
    {
        let slot = insert_into(&mut self.pages, page_id, data);
        match slot {
            None => Err(StorageError::PageFull),
            Some(slot_id) => {
                let copy = slice_to_vec(data);
                self.append(LogRecord::Insert { lsn: 0, txn_id, page_id, slot_id, data: copy });
                Ok(slot_id)
            },
        }
    }

    /// Logs a deletion. Returns whether the log's own copy of the page held the tuple.
    pub fn log_delete(&mut self, txn_id: u32, page_id: u32, slot_id: u16) -> (deleted: bool)
        requires
            old(self).wf(),
            old(self)@.lsn < u64::MAX,
        ensures
            final(self).wf(),
            final(self)@ == wal_delete(old(self)@, txn_id, page_id, slot_id),
            deleted == (old(self)@.pages.contains_key(page_id) && page_live(
                old(self)@.pages[page_id],
                slot_id as int,
            )),
    {
        let ghost before = self@;
        let mut old_data: Vec<u8> = Vec::new();
        let mut deleted = false;
        match self.pages.remove(&page_id) {
            Some(p) => {
                let mut page = p;
                if let Some(t) = page.get_tuple(slot_id) {
                    old_data = slice_to_vec(t);
                }
                deleted = page.delete_tuple(slot_id);
                self.pages.insert(page_id, page);
                assert(pages_view(self.pages@) =~= before.pages.insert(
                    page_id,
                    page_try_drop(before.pages[page_id], slot_id),
                ));
            },
            None => {
                assert(pages_view(self.pages@) =~= before.pages);
            },
        }
        assert(old_data@ =~= wal_old_data(before, page_id, slot_id));
        self.append(LogRecord::Delete { lsn: 0, txn_id, page_id, slot_id, old_data });
        deleted
    }

    /// Logs an update.
    pub fn log_update(
        &mut self,
        txn_id: u32,
        page_id: u32,
        slot_id: u16,
        old_data: &[u8],
        new_data: &[u8],
    )
        requires
            old(self).wf(),
            old(self)@.lsn < u64::MAX,
        ensures
            final(self).wf(),
            final(self)@ == wal_update(
                old(self)@,
                txn_id,
                page_id,
                slot_id,
                old_data@,
                new_data@,
            ),
    {
        let old_copy = slice_to_vec(old_data);
        let new_copy = slice_to_vec(new_data);
        self.append(
            LogRecord::Update {
                lsn: 0,
                txn_id,
                page_id,
                slot_id,
                old_data: old_copy,
                new_data: new_copy,
            },
        );
    }

    /// Commits a transaction: its records, and everything before them, become durable.
    pub fn commit(&mut self, txn_id: u32)
        requires
            old(self).wf(),
            old(self)@.lsn < u64::MAX,
        ensures
            final(self).wf(),
            final(self)@ == wal_commit(old(self)@, txn_id),
    {
        self.append(LogRecord::Commit { lsn: 0, txn_id });
        self.flush();
        self.active_txns.remove(&txn_id);
    }

    /// Aborts a transaction.
    pub fn abort(&mut self, txn_id: u32)
        requires
            old(self).wf(),
            old(self)@.lsn < u64::MAX,
        ensures
            final(self).wf(),
            final(self)@ == wal_abort(old(self)@, txn_id),
    {
        self.append(LogRecord::Abort { lsn: 0, txn_id });
        self.flush();
        self.active_txns.remove(&txn_id);
    }

    /// Asks for everything in the log to be made durable.
    pub fn flush(&mut self)
        requires
            old(self).wf(),
        ensures
            final(self).wf(),
            final(self)@ == wal_sync(old(self)@),
    {
        self.synced = self.log.len();
    }

    pub fn read_all_records(&self) -> (records: Vec<LogRecord>)
        ensures
            records_view(records@) == log_records(self@.log),
    {
        read_records(self.log.as_slice())
    }

    pub fn current_lsn(&self) -> (n: u64)
        ensures
            n == self@.lsn,
    {
        self.current_lsn
    }

    /// The id that the next transaction gets.
    pub fn next_txn_id(&self) -> (n: u32)
        ensures
            n == self@.next_txn,
    {
        self.next_txn_id
    }

    pub fn active_txns(&self) -> (txns: &HashSet<u32>)
        ensures
            txns@ == self@.active,
    {
        &self.active_txns
    }

    /// The bytes of the log.
    pub fn log_bytes(&self) -> (log: &[u8])
        ensures
            log@ == self@.log,
    {
        self.log.as_slice()
    }

    /// How many bytes of the log have to be durable.
    pub fn synced_len(&self) -> (n: usize)
        ensures
            n == self@.synced,
    {
        self.synced
    }

    /// The log's own copy of a page.
    pub fn page(&self, page_id: u32) -> (res: Option<&Page>)
        ensures
            match res {
                Some(page) => self@.pages.contains_key(page_id) && page.data@
                    == self@.pages[page_id],
                None => !self@.pages.contains_key(page_id),
            },
    {
        self.pages.get(&page_id)
    }

    /// Counts the records that are redone and undone.
    fn count_records(
        &self,
        records: &Vec<LogRecord>,
        committed_ids: &HashSet<u32>,
        incomplete_ids: &HashSet<u32>,
    ) -> (counts: (usize, usize))
        requires
            ({
                let all = records_view(records@);
                &&& forall|id: u32| committed(all, id) <==> #[trigger] committed_ids@.contains(id)
                &&& forall|id: u32| incomplete(all, id) <==> #[trigger] incomplete_ids@.contains(id)
            }),
        ensures
            ({
                let all = records_view(records@);
                let had = self@.pages.dom();
                &&& counts.0 == redone_upto(all, had, all.len())
                &&& counts.1 == undone_from(all, had, 0)
            }),
    {
        let ghost all = records_view(records@);
        let ghost had = self@.pages.dom();
        let n: usize = records.len();
        let mut made: HashSet<u32> = HashSet::new();
        let mut redone: usize = 0;
        let mut i: usize = 0;
        while i < n
            invariant
                i <= n,
                n == records@.len(),
                all == records_view(records@),
                had == self@.pages.dom(),
                forall|id: u32| committed(all, id) <==> #[trigger] committed_ids@.contains(id),
                forall|id: u32|
                    page_there(all, had, id, i as int) <==> had.contains(id)
                        || #[trigger] made@.contains(id),
                redone == redone_upto(all, had, i as nat),
                redone <= i,
            decreases n - i,
        {
            assert(all[i as int] == records@[i as int]@);
            let ghost made0 = made@;
            match &records[i] {
                LogRecord::Insert { txn_id, page_id, .. } => {
                    if committed_ids.contains(txn_id) {
                        made.insert(*page_id);
                        redone = redone + 1;
                    }
                },
                LogRecord::Delete { txn_id, page_id, .. } => {
                    if committed_ids.contains(txn_id) && (made.contains(page_id)
                        || self.pages.contains_key(page_id)) {
                        redone = redone + 1;
                    }
                    assert(made@.contains(*page_id) || !made@.contains(*page_id));
                },
                LogRecord::Update { txn_id, page_id, .. } => {
                    if committed_ids.contains(txn_id) {
                        made.insert(*page_id);
                        redone = redone + 1;
                    }
                },
                _ => {},
            }
            proof {
                assert forall|id: u32|
                    page_there(all, had, id, i + 1) <==> had.contains(id)
                        || #[trigger] made@.contains(id) by {
                    lemma_page_there(all, had, id, i as int);
                    assert(page_there(all, had, id, i as int) <==> had.contains(id)
                        || made0.contains(id));
                }
            }
            i = i + 1;
        }
        let mut undone: usize = 0;
        let mut i: usize = n;
        while i > 0
            invariant
                i <= n,
                n == records@.len(),
                all == records_view(records@),
                had == self@.pages.dom(),
                forall|id: u32| incomplete(all, id) <==> #[trigger] incomplete_ids@.contains(id),
                forall|id: u32|
                    page_there(all, had, id, n as int) || deleted_later(all, id, i - 1)
                        <==> had.contains(id) || #[trigger] made@.contains(id),
                undone == undone_from(all, had, i as int),
                undone <= n - i,
            decreases i,
        {
            i = i - 1;
            assert(all[i as int] == records@[i as int]@);
            let ghost made0 = made@;
            match &records[i] {
                LogRecord::Insert { txn_id, page_id, .. } => {
                    if incomplete_ids.contains(txn_id) && (made.contains(page_id)
                        || self.pages.contains_key(page_id)) {
                        undone = undone + 1;
                    }
                    assert(made@.contains(*page_id) || !made@.contains(*page_id));
                },
                LogRecord::Delete { txn_id, page_id, .. } => {
                    if incomplete_ids.contains(txn_id) {
                        made.insert(*page_id);
                        undone = undone + 1;
                    }
                },
                _ => {},
            }
            proof {
                assert forall|id: u32|
                    page_there(all, had, id, n as int) || deleted_later(all, id, i - 1)
                        <==> had.contains(id) || #[trigger] made@.contains(id) by {
                    lemma_deleted_later(all, id, i as int);
                    assert(page_there(all, had, id, n as int) || deleted_later(all, id, i as int)
                        <==> had.contains(id) || made0.contains(id));
                }
            }
        }
        (redone, undone)
    }

    /// Rebuilds the pages from the log: replays, in log order, what committed transactions did. Of
    /// other transactions nothing is replayed, so that nothing is left to undo.
    pub fn recover(&mut self) -> (report: RecoveryReport)
        requires
            old(self).wf(),
        ensures
            final(self).wf(),
            final(self)@ == (WalView { pages: recovered(log_records(old(self)@.log)), ..old(self)@ }),
            ({
                let records = log_records(old(self)@.log);
                let had = old(self)@.pages.dom();
                &&& report.redone == redone_upto(records, had, records.len())
                &&& report.undone == undone_from(records, had, 0)
                &&& report.incomplete_txns@ == Set::new(|id: u32| incomplete(records, id))
            }),
    {
        let ghost before = self@;
        let records = self.read_all_records();
        let ghost all = records_view(records@);
        let n: usize = records.len();
        // Which transactions started, committed and aborted.
        let mut committed_ids: HashSet<u32> = HashSet::new();
        let mut aborted_ids: HashSet<u32> = HashSet::new();
        let mut i: usize = 0;
        while i < n
            invariant
                i <= n,
                n == records@.len(),
                all == records_view(records@),
                forall|id: u32| #[trigger]
                    committed_ids@.contains(id) <==> in_first(all, i as int, id, Mark::Commit),
                forall|id: u32| #[trigger]
                    aborted_ids@.contains(id) <==> in_first(all, i as int, id, Mark::Abort),
            decreases n - i,
        {
            let ghost c0 = committed_ids@;
            let ghost a0 = aborted_ids@;
            match &records[i] {
                LogRecord::Commit { txn_id, .. } => {
                    committed_ids.insert(*txn_id);
                },
                LogRecord::Abort { txn_id, .. } => {
                    aborted_ids.insert(*txn_id);
                },
                _ => {},
            }
            proof {
                assert(all[i as int] == records@[i as int]@);
                assert forall|id: u32| #[trigger]
                    committed_ids@.contains(id) <==> in_first(all, i + 1, id, Mark::Commit) by {
                    lemma_in_first(all, i as int, id, Mark::Commit);
                    assert(c0.contains(id) <==> in_first(all, i as int, id, Mark::Commit));
                }
                assert forall|id: u32| #[trigger]
                    aborted_ids@.contains(id) <==> in_first(all, i + 1, id, Mark::Abort) by {
                    lemma_in_first(all, i as int, id, Mark::Abort);
                    assert(a0.contains(id) <==> in_first(all, i as int, id, Mark::Abort));
                }
            }
            i = i + 1;
        }
        proof {
            assert forall|id: u32| committed(all, id) <==> #[trigger] committed_ids@.contains(
                id,
            ) by {
                lemma_in_first_all(all, id);
            }
            assert forall|id: u32| aborted(all, id) <==> #[trigger] aborted_ids@.contains(id) by {
                lemma_in_first_all(all, id);
            }
        }
        let mut incomplete_ids: HashSet<u32> = HashSet::new();
        let mut i: usize = 0;
        while i < n
            invariant
                i <= n,
                n == records@.len(),
                all == records_view(records@),
                forall|id: u32| committed(all, id) <==> #[trigger] committed_ids@.contains(id),
                forall|id: u32| aborted(all, id) <==> #[trigger] aborted_ids@.contains(id),
                forall|id: u32| #[trigger]
                    incomplete_ids@.contains(id) <==> in_first(all, i as int, id, Mark::Begin)
                        && !committed(all, id) && !aborted(all, id),
            decreases n - i,
        {
            let ghost s0 = incomplete_ids@;
            if let LogRecord::Begin { txn_id, .. } = &records[i] {
                if !committed_ids.contains(txn_id) && !aborted_ids.contains(txn_id) {
                    incomplete_ids.insert(*txn_id);
                }
            }
            proof {
                assert(all[i as int] == records@[i as int]@);
                assert forall|id: u32| #[trigger]
                    incomplete_ids@.contains(id) <==> in_first(all, i + 1, id, Mark::Begin)
                        && !committed(all, id) && !aborted(all, id) by {
                    lemma_in_first(all, i as int, id, Mark::Begin);
                    assert(s0.contains(id) <==> in_first(all, i as int, id, Mark::Begin)
                        && !committed(all, id) && !aborted(all, id));
                    assert(committed(all, id) <==> committed_ids@.contains(id));
                    assert(aborted(all, id) <==> aborted_ids@.contains(id));
                }
            }
            i = i + 1;
        }
        proof {
            assert forall|id: u32| incomplete(all, id) <==> #[trigger] incomplete_ids@.contains(
                id,
            ) by {
                lemma_in_first_all(all, id);
            }
        }
        let (redone, undone) = self.count_records(&records, &committed_ids, &incomplete_ids);
        // Replay committed transactions.
        let mut i: usize = 0;
        self.pages = HashMap::new();
        assert(pages_view(self.pages@) =~= Map::empty());
        while i < n
            invariant
                i <= n,
                n == records@.len(),
                all == records_view(records@),
                forall|id: u32| committed(all, id) <==> #[trigger] committed_ids@.contains(id),
                self.wf(),
                self@ == (WalView { pages: redo(all, i as nat), ..before }),
            decreases n - i,
        {
            assert(all[i as int] == records@[i as int]@);
            match &records[i] {
                LogRecord::Insert { txn_id, page_id, data, .. } => {
                    if committed_ids.contains(txn_id) {
                        insert_into(&mut self.pages, *page_id, data.as_slice());
                    } else {
                        skip_in(&mut self.pages, *page_id, data.as_slice());
                    }
                },
                LogRecord::Delete { txn_id, page_id, slot_id, .. } => {
                    if committed_ids.contains(txn_id) {
                        delete_from(&mut self.pages, *page_id, *slot_id);
                    }
                },
                LogRecord::Update { txn_id, page_id, slot_id, new_data, .. } => {
                    if committed_ids.contains(txn_id) {
                        update_in(&mut self.pages, *page_id, *slot_id, new_data.as_slice());
                    }
                },
                _ => {},
            }
            i = i + 1;
        }
        assert(incomplete_ids@ =~= Set::new(|id: u32| incomplete(all, id)));
        RecoveryReport { redone, undone, incomplete_txns: incomplete_ids }
    }
}

proof fn lemma_in_first(records: Seq<LogView>, n: int, id: u32, mark: Mark)
    requires
        0 <= n < records.len(),
    ensures
        in_first(records, n + 1, id, mark) <==> in_first(records, n, id, mark) || says(
            records[n],
            id,
            mark,
        ),
{
}

proof fn lemma_page_there(records: Seq<LogView>, had: Set<u32>, id: u32, n: int)
    requires
        0 <= n < records.len(),
    ensures
        page_there(records, had, id, n + 1) <==> page_there(records, had, id, n) || makes_page(
            records[n],
            id,
        ) && committed(records, records[n].txn()->0),
{
    assert(makes_page(records[n], id) || !makes_page(records[n], id));
}

proof fn lemma_deleted_later(records: Seq<LogView>, id: u32, i: int)
    requires
        0 <= i < records.len(),
    ensures
        deleted_later(records, id, i - 1) <==> deleted_later(records, id, i) || (
        records[i] matches LogView::Delete { txn_id, page_id, .. } && page_id == id && incomplete(
            records,
            txn_id,
        )),
{
    let r = records[i];
}

proof fn lemma_in_first_all(records: Seq<LogView>, id: u32)
    ensures
        started(records, id) <==> in_first(records, records.len() as int, id, Mark::Begin),
        committed(records, id) <==> in_first(records, records.len() as int, id, Mark::Commit),
        aborted(records, id) <==> in_first(records, records.len() as int, id, Mark::Abort),
{
}

/// The log from `off` on is a sequence of whole frames.
pub open spec fn whole_from(log: Seq<u8>, off: int) -> bool
    decreases log.len() - off,
{
    if off < 0 || off >= log.len() {
        off == log.len()
    } else {
        off + 4 <= log.len() && off + 4 + un32(log, off) <= log.len() && whole_from(
            log,
            off + 4 + un32(log, off),
        )
    }
}

/// The log ends where its last frame ends.
pub open spec fn whole(log: Seq<u8>) -> bool {
    whole_from(log, 0)
}

proof fn lemma_extend(log: Seq<u8>, tail: Seq<u8>, off: int)
    requires
        0 <= off,
        whole_from(log, off),
    ensures
        records_from(log + tail, off) == records_from(log, off) + records_from(
            log + tail,
            log.len() as int,
        ),
        whole_from(log + tail, off) == whole_from(log + tail, log.len() as int),
    decreases log.len() - off,
{
    let all = log + tail;
    if off < log.len() {
        let next = off + 4 + un32(log, off);
        assert(un32(all, off) == un32(log, off));
        assert(all.subrange(off + 4, next) =~= log.subrange(off + 4, next));
        lemma_extend(log, tail, next);
        let rest = records_from(log, next);
        let more = records_from(all, log.len() as int);
        match record_of(log.subrange(off + 4, next)) {
            Some(r) => {
                assert(seq![r] + (rest + more) =~= (seq![r] + rest) + more);
            },
            None => {},
        }
    } else {
        assert(Seq::<LogView>::empty() + records_from(all, log.len() as int) =~= records_from(
            all,
            log.len() as int,
        ));
    }
}

/// A record appended to a log of whole frames is read back after the records that were there, and
/// the log still consists of whole frames.
pub proof fn law_append_reads_back(log: Seq<u8>, r: LogView)
    requires
        whole(log),
        r.encodable(),
    ensures
        whole(log + framed(r)),
        log_records(log + framed(r)) == log_records(log).push(r),
{
    let b = record_bytes(r);
    lemma_record_back(r);
    lemma_last_frame(log, b);
    lemma_extend(log, sized(b), 0);
    let all = log + sized(b);
    assert(seq![r] + Seq::<LogView>::empty() =~= seq![r]);
    assert(log_records(log) + seq![r] =~= log_records(log).push(r));
}

/// The last frame of a log is read as a whole.
proof fn lemma_last_frame(log: Seq<u8>, b: Seq<u8>)
    requires
        b.len() <= u32::MAX,
    ensures
        whole_from(log + sized(b), log.len() as int),
        records_from(log + sized(b), log.len() as int) == (match record_of(b) {
            Some(r) => seq![r] + Seq::<LogView>::empty(),
            None => Seq::empty(),
        }),
{
    let all = log + sized(b);
    let off = log.len() as int;
    assert(holds_at(all, off, sized(b)));
    lemma_sized_back(all, off, b);
    assert(sized(b).len() == 4 + b.len());
    let next = off + 4 + un32(all, off);
    assert(next == all.len());
    assert(all.subrange(off + 4, next) == b);
    assert(records_from(all, next) =~= Seq::empty());
    assert(whole_from(all, next));
}

/// The empty log consists of whole frames and holds no records.
pub proof fn law_empty_log()
    ensures
        whole(Seq::empty()),
        log_records(Seq::empty()) == Seq::<LogView>::empty(),
{
}

/// The next log sequence number is larger than every one in the log.
pub open spec fn fresh(w: WalView) -> bool {
    &&& whole(w.log)
    &&& forall|i: int|
        0 <= i < log_records(w.log).len() ==> (#[trigger] log_records(w.log)[i]).number() < w.lsn
}

/// Log sequence numbers increase along the log.
pub open spec fn increasing(records: Seq<LogView>) -> bool {
    forall|i: int, j: int|
        0 <= i < j < records.len() ==> (#[trigger] records[i]).number() < (
        #[trigger] records[j]).number()
}

/// A record that is appended is read back after those that were there, with the next log sequence
/// number, which is larger than all of theirs; the numbers go on increasing along the log.
pub proof fn law_lsn_increases(w: WalView, r: LogView)
    requires
        fresh(w),
        increasing(log_records(w.log)),
        w.lsn < u64::MAX,
        r.encodable(),
    ensures
        fresh(wal_append(w, r)),
        increasing(log_records(wal_append(w, r).log)),
        log_records(wal_append(w, r).log) == log_records(w.log).push(r.numbered(w.lsn)),
        r.numbered(w.lsn).number() == w.lsn,
        forall|i: int|
            0 <= i < log_records(w.log).len() ==> (#[trigger] log_records(w.log)[i]).number() < w.lsn,
{
    law_append_reads_back(w.log, r.numbered(w.lsn));
}

proof fn lemma_next_lsn(records: Seq<LogView>)
    ensures
        next_lsn(records) < u64::MAX ==> forall|i: int|
            0 <= i < records.len() ==> (#[trigger] records[i]).number() < next_lsn(records),
    decreases records.len(),
{
    if records.len() > 0 {
        let dl = records.drop_last();
        lemma_next_lsn(dl);
        if next_lsn(records) < u64::MAX {
            assert forall|i: int| 0 <= i < records.len() implies (#[trigger] records[i]).number()
                < next_lsn(records) by {
                if i < dl.len() {
                    assert(dl[i] == records[i]);
                }
            }
        }
    }
}

/// A log that is opened again goes on with larger log sequence numbers.
pub proof fn law_lsn_after_reopen(log: Seq<u8>)
    requires
        next_lsn(log_records(log)) < u64::MAX,
    ensures
        fresh(wal_opened(log)),
{
    lemma_next_lsn(log_records(log));
    law_torn_record_is_dropped(log);
}

proof fn lemma_next_txn(records: Seq<LogView>)
    ensures
        forall|i: int|
            0 <= i < records.len() ==> ((#[trigger] records[i]).txn() matches Some(id) ==> id
                < next_txn(records) || (id == u32::MAX && next_txn(records) == u32::MAX)),
    decreases records.len(),
{
    if records.len() > 0 {
        let dl = records.drop_last();
        lemma_next_txn(dl);
        assert forall|i: int| 0 <= i < records.len() implies ((
        #[trigger] records[i]).txn() matches Some(id) ==> id < next_txn(records) || (id == u32::MAX && next_txn(
            records,
        ) == u32::MAX)) by {
            if i < dl.len() {
                assert(dl[i] == records[i]);
            }
        }
    }
}

/// The next transaction id is larger than every one in the log.
pub open spec fn fresh_txn(w: WalView) -> bool {
    forall|i: int|
        0 <= i < log_records(w.log).len() ==> ((
        #[trigger] log_records(w.log)[i]).txn() matches Some(id) ==> id < w.next_txn)
}

/// A log that is opened again goes on with transaction ids that no record of it has, unless the ids
/// are used up.
pub proof fn law_txn_ids_after_reopen(log: Seq<u8>)
    requires
        forall|i: int|
            0 <= i < log_records(log).len() ==> (#[trigger] log_records(log)[i]).txn() != Some(
                u32::MAX,
            ),
    ensures
        fresh_txn(wal_opened(log)),
{
    lemma_next_txn(log_records(log));
    law_torn_record_is_dropped(log);
}

/// A transaction that starts gets an id that no record of the log has, and so will the next one.
pub proof fn law_begin_takes_fresh_id(w: WalView)
    requires
        fresh_txn(w),
        whole(w.log),
        w.next_txn < u32::MAX,
    ensures
        fresh_txn(wal_begin(w)),
        !started(log_records(w.log), w.next_txn),
        !committed(log_records(w.log), w.next_txn),
        !aborted(log_records(w.log), w.next_txn),
{
    let r = LogView::Begin { lsn: w.lsn, txn_id: w.next_txn };
    lemma_record_len(r);
    law_append_reads_back(w.log, r);
    let now = log_records(wal_begin(w).log);
    assert(now == log_records(w.log).push(r));
}

proof fn lemma_whole_end(log: Seq<u8>, off: int)
    requires
        0 <= off <= log.len(),
    ensures
        off <= whole_end(log, off) <= log.len(),
        ({
            let cut = log.take(whole_end(log, off));
            &&& whole_from(cut, off)
            &&& records_from(cut, off) == records_from(log, off)
        }),
        whole_from(log, off) ==> whole_end(log, off) == log.len(),
    decreases log.len() - off,
{
    let end = whole_end(log, off);
    let cut = log.take(end);
    if off + 4 <= log.len() && off + 4 + un32(log, off) <= log.len() {
        let next = off + 4 + un32(log, off);
        lemma_whole_end(log, next);
        assert(un32(cut, off) == un32(log, off));
        assert(cut.subrange(off + 4, next) =~= log.subrange(off + 4, next));
    }
}

/// Opening a log drops only a record at its end that was cut short: what is left consists of whole
/// frames and holds the same records.
pub proof fn law_torn_record_is_dropped(log: Seq<u8>)
    ensures
        whole_part(log).is_prefix_of(log),
        whole(whole_part(log)),
        log_records(whole_part(log)) == log_records(log),
        whole(log) ==> whole_part(log) == log,
{
    lemma_whole_end(log, 0);
    if whole(log) {
        assert(whole_part(log) =~= log);
    }
}

proof fn lemma_cut(log: Seq<u8>, m: int, off: int)
    requires
        0 <= off <= m <= log.len(),
    ensures
        records_from(log.take(m), off).is_prefix_of(records_from(log, off)),
    decreases m - off,
{
    let cut = log.take(m);
    if off + 4 <= m {
        assert(un32(cut, off) == un32(log, off));
        let next = off + 4 + un32(log, off);
        if next <= m {
            assert(cut.subrange(off + 4, next) =~= log.subrange(off + 4, next));
            lemma_cut(log, m, next);
            let a = records_from(cut, next);
            let b = records_from(log, next);
            if let Some(r) = record_of(log.subrange(off + 4, next)) {
                assert(seq![r] + a =~= (seq![r] + b).take((seq![r] + a).len() as int));
            }
        }
    }
}

/// A log that is cut off anywhere holds the first of its records.
pub proof fn law_cut_log_holds_first_records(log: Seq<u8>, m: int)
    requires
        0 <= m <= log.len(),
    ensures
        log_records(log.take(m)).is_prefix_of(log_records(log)),
{
    lemma_cut(log, m, 0);
}

/// A log that goes on from another one holds the records of that one first, wherever it is cut off
/// after it.
pub proof fn lemma_cut_goes_on(log: Seq<u8>, all: Seq<u8>, m: int)
    requires
        whole(log),
        log.is_prefix_of(all),
        log.len() <= m <= all.len(),
    ensures
        log_records(log).is_prefix_of(log_records(all.take(m))),
{
    let cut = all.take(m);
    assert(cut =~= log + cut.skip(log.len() as int));
    lemma_extend(log, cut.skip(log.len() as int), 0);
    let more = records_from(cut, log.len() as int);
    assert(log_records(log) =~= (log_records(log) + more).take(log_records(log).len() as int));
}

/// A record that was not written as a whole is not read.
pub proof fn law_torn_record_is_not_read(log: Seq<u8>, r: LogView, m: int)
    requires
        whole(log),
        r.encodable(),
        log.len() <= m < (log + framed(r)).len(),
    ensures
        log_records((log + framed(r)).take(m)) == log_records(log),
{
    let all = log + framed(r);
    let cut = all.take(m);
    let tail = cut.skip(log.len() as int);
    assert(cut =~= log + tail);
    lemma_extend(log, tail, 0);
    let off = log.len() as int;
    assert(records_from(cut, off) =~= Seq::empty()) by {
        if off + 4 <= cut.len() {
            law_record_round_trip(r);
            assert(un32(cut, off) == un32(framed(r), 0)) by {
                assert(cut[off] == framed(r)[0] && cut[off + 1] == framed(r)[1] && cut[off + 2]
                    == framed(r)[2] && cut[off + 3] == framed(r)[3]);
            }
        }
    }
    assert(log_records(log) + Seq::<LogView>::empty() =~= log_records(log));
}

/// Leaving out the first `n` of `records`, whatever their transactions.
pub open spec fn skip_all(pages: Map<u32, Seq<u8>>, records: Seq<LogView>, n: nat) -> Map<
    u32,
    Seq<u8>,
>
    decreases n,
{
    if n == 0 {
        pages
    } else {
        skip_one(
            skip_all(pages, records, (n - 1) as nat),
            records[n - 1],
        )
    }
}

proof fn lemma_redo_skips(
    base: Seq<LogView>,
    tail: Seq<LogView>,
    done: Set<u32>,
    id: u32,
    n: nat,
)
    requires
        n <= tail.len(),
        !done.contains(id),
        forall|i: int| 0 <= i < tail.len() ==> (#[trigger] tail[i]).txn() == Some(id),
    ensures
        redo_in(base + tail, done, (base.len() + n) as nat) == skip_all(
            redo_in(base + tail, done, base.len()),
            tail,
            n,
        ),
    decreases n,
{
    if n > 0 {
        lemma_redo_skips(base, tail, done, id, (n - 1) as nat);
        assert((base + tail)[base.len() + n - 1] == tail[n - 1]);
    }
}

/// What a transaction that did not commit logged is left out: recovery makes of the log what it made
/// before, but for the slots that insertions took.
pub proof fn law_cut_off_transaction_is_left_out(
    base: Seq<LogView>,
    tail: Seq<LogView>,
    id: u32,
)
    requires
        forall|i: int| 0 <= i < base.len() ==> (#[trigger] base[i]).txn() != Some(id),
        forall|i: int|
            0 <= i < tail.len() ==> (#[trigger] tail[i]).txn() == Some(id) && !(tail[i] is Commit),
    ensures
        committed_set(base + tail) == committed_set(base),
        recovered(base + tail) == skip_all(recovered(base), tail, tail.len()),
{
    let all = base + tail;
    let done = committed_set(base);
    assert(!committed(all, id)) by {
        if committed(all, id) {
            let i = choose|i: int|
                0 <= i < all.len() && (#[trigger] all[i] matches LogView::Commit { txn_id, .. }
                    && txn_id == id);
            if i < base.len() {
                assert(all[i] == base[i]);
                assert(base[i].txn() == Some(id));
            } else {
                assert(all[i] == tail[i - base.len()]);
            }
        }
    }
    assert forall|j: u32| committed(all, j) == #[trigger] committed(base, j) by {
        lemma_outcome(base, tail, id, j);
    }
    assert(committed_set(all) =~= done);
    assert forall|i: int| 0 <= i < base.len() implies #[trigger] all[i] == base[i] by {}
    lemma_redo_agrees(all, base, done, done, base.len());
    lemma_redo_skips(base, tail, done, id, tail.len());
}

/// What is replayed depends on the records, and on which of their transactions are in `done`.
pub proof fn lemma_redo_agrees(
    a: Seq<LogView>,
    b: Seq<LogView>,
    d: Set<u32>,
    e: Set<u32>,
    n: nat,
)
    requires
        n <= a.len(),
        n <= b.len(),
        forall|i: int| 0 <= i < n ==> #[trigger] a[i] == b[i],
        forall|i: int|
            0 <= i < n ==> ((#[trigger] a[i]).txn() matches Some(id) ==> d.contains(id)
                == e.contains(id)),
    ensures
        redo_in(a, d, n) == redo_in(b, e, n),
    decreases n,
{
    if n > 0 {
        lemma_redo_agrees(a, b, d, e, (n - 1) as nat);
        assert(a[n - 1] == b[n - 1]);
    }
}

/// What a committed transaction did is replayed after what was committed before it: once the
/// records `tail` of transaction `id`, which end with its commit, are in the log, recovery replays
/// them on top.
pub proof fn law_commit_is_durable(records: Seq<LogView>, tail: Seq<LogView>, id: u32)
    requires
        tail.len() > 0,
        tail.last() matches LogView::Commit { txn_id, .. } && txn_id == id,
        forall|i: int| 0 <= i < tail.len() ==> (#[trigger] tail[i]).txn() == Some(id),
        forall|i: int|
            0 <= i < records.len() ==> ((#[trigger] records[i]).txn() == Some(id) ==> committed(
                records,
                id,
            )),
    ensures
        recovered(records + tail) == replay_all(recovered(records), tail, tail.len()),
{
    let all = records + tail;
    let m = records.len() as int;
    assert(all[m + tail.len() - 1] == tail.last());
    assert(committed(all, id));
    assert forall|j: u32| #[trigger] committed(all, j) == (committed(records, j) || j == id) by {
        lemma_outcome(records, tail, id, j);
    }
    assert forall|i: int| 0 <= i < m implies ((#[trigger] all[i]).txn() matches Some(k)
        ==> committed_set(all).contains(k) == committed_set(records).contains(k)) by {
        assert(all[i] == records[i]);
    }
    lemma_redo_agrees(all, records, committed_set(all), committed_set(records), records.len());
    lemma_redo_tail(records, tail, id, tail.len());
}

/// How the outcome of transactions changes when records of transaction `id` are appended.
pub proof fn lemma_outcome(records: Seq<LogView>, tail: Seq<LogView>, id: u32, j: u32)
    requires
        forall|i: int| 0 <= i < tail.len() ==> (#[trigger] tail[i]).txn() == Some(id),
    ensures
        committed(records, j) ==> committed(records + tail, j),
        aborted(records, j) ==> aborted(records + tail, j),
        started(records, j) ==> started(records + tail, j),
        j != id ==> committed(records + tail, j) == committed(records, j),
        j != id ==> aborted(records + tail, j) == aborted(records, j),
        j != id ==> started(records + tail, j) == started(records, j),
{
    let all = records + tail;
    assert forall|i: int| 0 <= i < records.len() implies #[trigger] all[i] == records[i] by {}
    assert forall|i: int| records.len() <= i < all.len() implies #[trigger] all[i] == tail[i
        - records.len()] by {}
    if committed(records, j) {
        let i = choose|i: int|
            0 <= i < records.len() && (#[trigger] records[i] matches LogView::Commit { txn_id, .. }
                && txn_id == j);
        assert(all[i] == records[i]);
    }
    if aborted(records, j) {
        let i = choose|i: int|
            0 <= i < records.len() && (#[trigger] records[i] matches LogView::Abort { txn_id, .. }
                && txn_id == j);
        assert(all[i] == records[i]);
    }
    if started(records, j) {
        let i = choose|i: int|
            0 <= i < records.len() && (#[trigger] records[i] matches LogView::Begin { txn_id, .. }
                && txn_id == j);
        assert(all[i] == records[i]);
    }
}

/// Replaying the first `n` of `records` whatever their transactions.
pub open spec fn replay_all(pages: Map<u32, Seq<u8>>, records: Seq<LogView>, n: nat) -> Map<
    u32,
    Seq<u8>,
>
    decreases n,
{
    if n == 0 {
        pages
    } else {
        redo_one(
            replay_all(pages, records, (n - 1) as nat),
            records[n - 1],
        )
    }
}

proof fn lemma_redo_tail(records: Seq<LogView>, tail: Seq<LogView>, id: u32, n: nat)
    requires
        n <= tail.len(),
        committed(records + tail, id),
        forall|i: int| 0 <= i < tail.len() ==> (#[trigger] tail[i]).txn() == Some(id),
    ensures
        redo(records + tail, (records.len() + n) as nat) == replay_all(
            redo(records + tail, records.len()),
            tail,
            n,
        ),
    decreases n,
{
    if n > 0 {
        lemma_redo_tail(records, tail, id, (n - 1) as nat);
        let all = records + tail;
        assert(all[records.len() + n - 1] == tail[n - 1]);
    }
}

// Which tuples recovery leaves.

/// What a record makes of the tuple in a slot, if it is done.
pub open spec fn tuple_step(t: Option<Seq<u8>>, r: LogView, page: u32, slot: u16) -> Option<
    Seq<u8>,
> {
    match r {
        LogView::Insert { page_id, slot_id, data, .. } => if page_id == page && slot_id == slot {
            Some(data)
        } else {
            t
        },
        LogView::Delete { page_id, slot_id, .. } => if page_id == page && slot_id == slot {
            None
        } else {
            t
        },
        LogView::Update { page_id, slot_id, new_data, .. } => match t {
            Some(was) => if page_id == page && slot_id == slot && new_data.len() <= was.len() {
                Some(new_data + was.skip(new_data.len() as int))
            } else {
                t
            },
            None => t,
        },
        _ => t,
    }
}

/// The tuple in a slot after those of `records` that belong to the transactions in `done` were done
/// in order. A new tuple that is longer than the one it replaces is not written; one that is
/// shorter leaves the end of the old one.
pub open spec fn tuple_after(records: Seq<LogView>, done: Set<u32>, page: u32, slot: u16) -> Option<
    Seq<u8>,
>
    decreases records.len(),
{
    if records.len() == 0 {
        None
    } else {
        let t = tuple_after(records.drop_last(), done, page, slot);
        let r = records.last();
        match r.txn() {
            Some(id) => if done.contains(id) {
                tuple_step(t, r, page, slot)
            } else {
                t
            },
            None => t,
        }
    }
}

/// The tuple that the insertions, deletions and updates of committed transactions, done in log
/// order, leave in a slot.
pub open spec fn live(records: Seq<LogView>, page: u32, slot: u16) -> Option<Seq<u8>> {
    tuple_after(records, committed_set(records), page, slot)
}

/// How many of the first `n` records insert into a page.
pub open spec fn slots_taken(records: Seq<LogView>, n: nat, page: u32) -> nat
    decreases n,
{
    if n == 0 {
        0
    } else {
        let before = slots_taken(records, (n - 1) as nat, page);
        match records[n - 1] {
            LogView::Insert { page_id, .. } => if page_id == page {
                before + 1
            } else {
                before
            },
            _ => before,
        }
    }
}

/// How many bytes the tuples that the first `n` records insert into a page take.
pub open spec fn bytes_taken(records: Seq<LogView>, n: nat, page: u32) -> nat
    decreases n,
{
    if n == 0 {
        0
    } else {
        let before = bytes_taken(records, (n - 1) as nat, page);
        match records[n - 1] {
            LogView::Insert { page_id, data, .. } => if page_id == page {
                before + data.len()
            } else {
                before
            },
            _ => before,
        }
    }
}

/// Record `i`, if it is an insertion, names the slot after those that the records before it took on
/// its page, and the page has room for the tuple.
pub open spec fn seat_ok(records: Seq<LogView>, i: int) -> bool {
    records[i] matches LogView::Insert { page_id, slot_id, data, .. } ==> {
        &&& slot_id == slots_taken(records, i as nat, page_id)
        &&& slot_at(slot_id as int) + 5 + data.len() + bytes_taken(records, i as nat, page_id)
            <= PAGE_SIZE
    }
}

/// Every insertion of the log names its slot and fits its page.
pub open spec fn seated(records: Seq<LogView>) -> bool {
    forall|i: int| 0 <= i < records.len() ==> #[trigger] seat_ok(records, i)
}

/// A page with that many slots and bytes taken.
pub open spec fn page_taken(d: Seq<u8>, slots: nat, bytes: nat) -> bool {
    &&& page_wf(d)
    &&& page_count(d) == slots
    &&& header_of(d).free_space_offset == PAGE_SIZE - bytes
}

proof fn lemma_blank_taken(id: u32)
    ensures
        page_taken(page_blank(id), 0, 0),
        forall|k: int| page_get(page_blank(id), k) is None,
{
    law_blank(id);
}

/// Inserting a tuple, and inserting one that is left out.
proof fn lemma_put_taken(d: Seq<u8>, slots: nat, bytes: nat, t: Seq<u8>)
    requires
        page_taken(d, slots, bytes),
        slot_at(slots as int) + 5 + t.len() + bytes <= PAGE_SIZE,
    ensures
        page_fits(d, t.len()),
        page_taken(page_try_put(d, t), slots + 1, bytes + t.len()),
        page_taken(page_try_skip(d, t), slots + 1, bytes + t.len()),
        forall|k: int| #[trigger]
            page_get(page_try_put(d, t), k) == (if k == slots {
                Some(t)
            } else {
                page_get(d, k)
            }),
        forall|k: int| #[trigger]
            page_get(page_try_skip(d, t), k) == (if k == slots {
                None
            } else {
                page_get(d, k)
            }),
{
    law_insert(d, t);
    let e = page_put(d, t);
    assert(page_room(e) == page_room(d) - t.len() - 5);
    law_delete(e, slots as int);
}

proof fn lemma_drop_taken(d: Seq<u8>, slots: nat, bytes: nat, slot: u16)
    requires
        page_taken(d, slots, bytes),
    ensures
        page_taken(page_try_drop(d, slot), slots, bytes),
        forall|k: int| #[trigger]
            page_get(page_try_drop(d, slot), k) == (if k == slot {
                None
            } else {
                page_get(d, k)
            }),
{
    if page_live(d, slot as int) {
        law_delete(d, slot as int);
    }
}

proof fn lemma_overwrite_taken(d: Seq<u8>, slots: nat, bytes: nat, slot: u16, t: Seq<u8>)
    requires
        page_taken(d, slots, bytes),
    ensures
        page_taken(page_try_overwrite(d, slot, t), slots, bytes),
        forall|k: int| #[trigger]
            page_get(page_try_overwrite(d, slot, t), k) == (if k == slot && page_can_overwrite(
                d,
                slot,
                t,
            ) {
                Some(t + page_get(d, k)->0.skip(t.len() as int))
            } else {
                page_get(d, k)
            }),
{
    if page_can_overwrite(d, slot, t) {
        law_update(d, slot as int, t);
        let was = page_get(d, slot as int)->0;
        assert(was.subrange(t.len() as int, was.len() as int) =~= was.skip(t.len() as int));
    }
}

/// What the first `n` records of a seated log make of a page.
proof fn lemma_redo_page(records: Seq<LogView>, n: nat, page: u32)
    requires
        seated(records),
        n <= records.len(),
    ensures
        page_taken(
            page_or_blank(redo(records, n), page),
            slots_taken(records, n, page),
            bytes_taken(records, n, page),
        ),
        forall|slot: u16| #[trigger]
            page_get(page_or_blank(redo(records, n), page), slot as int) == tuple_after(
                records.take(n as int),
                committed_set(records),
                page,
                slot,
            ),
    decreases n,
{
    let done = committed_set(records);
    if n == 0 {
        lemma_blank_taken(page);
    } else {
        let m = (n - 1) as nat;
        lemma_redo_page(records, m, page);
        let r = records[m as int];
        assert(seat_ok(records, m as int));
        assert(records.take(n as int).drop_last() =~= records.take(m as int));
        assert(records.take(n as int).last() == r);
        let s = redo(records, m);
        let d = page_or_blank(s, page);
        let e = page_or_blank(redo(records, n), page);
        let slots = slots_taken(records, m, page);
        let bytes = bytes_taken(records, m, page);
        match r {
            LogView::Insert { page_id, data, .. } => {
                if page_id == page {
                    lemma_put_taken(d, slots, bytes, data);
                }
            },
            LogView::Delete { page_id, slot_id, .. } => {
                if page_id == page {
                    lemma_drop_taken(d, slots, bytes, slot_id);
                    if !s.contains_key(page) {
                        lemma_blank_taken(page);
                        assert(e == d);
                    }
                }
            },
            LogView::Update { page_id, slot_id, new_data, .. } => {
                if page_id == page {
                    lemma_overwrite_taken(d, slots, bytes, slot_id, new_data);
                }
            },
            _ => {},
        }
    }
}

/// Recovery leaves in every slot of every page the tuple that the insertions, deletions and updates
/// of committed transactions, done in log order, leave there.
pub proof fn law_recovered_tuples(records: Seq<LogView>, page: u32, slot: u16)
    requires
        seated(records),
    ensures
        page_get(page_or_blank(recovered(records), page), slot as int) == live(records, page, slot),
{
    lemma_redo_page(records, records.len(), page);
    assert(records.take(records.len() as int) =~= records);
}

/// The log without the records of a transaction.
pub open spec fn without(records: Seq<LogView>, id: u32) -> Seq<LogView> {
    records.filter(|r: LogView| r.txn() != Some(id))
}

proof fn lemma_without(records: Seq<LogView>, id: u32, done: Set<u32>, page: u32, slot: u16)
    requires
        !done.contains(id),
    ensures
        tuple_after(without(records, id), done, page, slot) == tuple_after(
            records,
            done,
            page,
            slot,
        ),
    decreases records.len(),
{
    reveal(Seq::filter);
    if records.len() > 0 {
        lemma_without(records.drop_last(), id, done, page, slot);
        let rest = without(records.drop_last(), id);
        if records.last().txn() != Some(id) {
            assert(without(records, id) == rest.push(records.last()));
            assert(rest.push(records.last()).drop_last() =~= rest);
        } else {
            assert(without(records, id) == rest);
        }
    }
}

proof fn lemma_without_members(records: Seq<LogView>, id: u32, r: LogView)
    ensures
        without(records, id).contains(r) <==> records.contains(r) && r.txn() != Some(id),
    decreases records.len(),
{
    reveal(Seq::filter);
    if records.len() > 0 {
        let dl = records.drop_last();
        lemma_without_members(dl, id, r);
        let rest = without(dl, id);
        let last = records.last();
        assert(records =~= dl.push(last));
        assert(records.contains(r) <==> dl.contains(r) || r == last) by {
            lemma_push_contains(dl, last, r);
        }
        lemma_push_contains(rest, last, r);
    }
}

proof fn lemma_push_contains(s: Seq<LogView>, a: LogView, r: LogView)
    ensures
        s.push(a).contains(r) <==> s.contains(r) || r == a,
{
    if s.contains(r) {
        let i = choose|i: int| 0 <= i < s.len() && s[i] == r;
        assert(s.push(a)[i] == r);
    }
    assert(s.push(a)[s.len() as int] == a);
}

proof fn lemma_committed_record(records: Seq<LogView>, j: u32) -> (r: LogView)
    requires
        committed(records, j),
    ensures
        records.contains(r),
        r is Commit,
        r.txn() == Some(j),
{
    let i = choose|i: int|
        0 <= i < records.len() && (#[trigger] records[i] matches LogView::Commit { txn_id, .. }
            && txn_id == j);
    records[i]
}

proof fn lemma_record_committed(records: Seq<LogView>, j: u32, r: LogView)
    requires
        records.contains(r),
        r is Commit,
        r.txn() == Some(j),
    ensures
        committed(records, j),
{
    let i = choose|i: int| 0 <= i < records.len() && records[i] == r;
    assert(records[i] == r);
}

/// A transaction that did not commit leaves no trace, whether it was aborted or cut off, and
/// whatever other transactions logged in between: recovery leaves in every slot of every page the
/// tuple that the log without its records tells.
pub proof fn law_uncommitted_leaves_no_trace(
    records: Seq<LogView>,
    id: u32,
    page: u32,
    slot: u16,
)
    requires
        seated(records),
        !committed(records, id),
    ensures
        page_get(page_or_blank(recovered(records), page), slot as int) == live(
            without(records, id),
            page,
            slot,
        ),
{
    law_recovered_tuples(records, page, slot);
    let rest = without(records, id);
    assert forall|j: u32| committed(records, j) == #[trigger] committed(rest, j) by {
        if committed(records, j) {
            let r = lemma_committed_record(records, j);
            lemma_without_members(records, id, r);
            lemma_record_committed(rest, j, r);
        }
        if committed(rest, j) {
            let r = lemma_committed_record(rest, j);
            lemma_without_members(records, id, r);
            lemma_record_committed(records, j, r);
        }
    }
    assert(committed_set(rest) =~= committed_set(records));
    lemma_without(records, id, committed_set(records), page, slot);
}

/// Where nothing committed, recovery replays nothing.
pub proof fn law_nothing_committed(records: Seq<LogView>, had: Set<u32>, n: nat)
    requires
        n <= records.len(),
        forall|id: u32| !committed(records, id),
    ensures
        redone_upto(records, had, n) == 0,
    decreases n,
{
    if n > 0 {
        law_nothing_committed(records, had, (n - 1) as nat);
    }
}

// The logs that are written are seated.

/// The log's own copies of the pages have the slots that the log tells.
pub open spec fn in_step(w: WalView) -> bool {
    let records = log_records(w.log);
    &&& whole(w.log)
    &&& seated(records)
    &&& forall|page: u32|
        page_taken(
            #[trigger] page_or_blank(w.pages, page),
            slots_taken(records, records.len(), page),
            bytes_taken(records, records.len(), page),
        )
}

proof fn lemma_taken_prefix(a: Seq<LogView>, b: Seq<LogView>, n: nat, page: u32)
    requires
        n <= a.len(),
        n <= b.len(),
        forall|i: int| 0 <= i < n ==> a[i] == b[i],
    ensures
        slots_taken(a, n, page) == slots_taken(b, n, page),
        bytes_taken(a, n, page) == bytes_taken(b, n, page),
    decreases n,
{
    if n > 0 {
        lemma_taken_prefix(a, b, (n - 1) as nat, page);
        assert(a[n - 1] == b[n - 1]);
    }
}

/// The first records of a log whose insertions name their slots do so too: what is left of a log
/// that is cut off anywhere can be recovered from.
pub proof fn law_cut_log_stays_seated(records: Seq<LogView>, n: int)
    requires
        seated(records),
        0 <= n <= records.len(),
    ensures
        seated(records.take(n)),
{
    let cut = records.take(n);
    assert forall|i: int| 0 <= i < cut.len() implies #[trigger] seat_ok(cut, i) by {
        assert(seat_ok(records, i));
        if let LogView::Insert { page_id, .. } = cut[i] {
            lemma_taken_prefix(cut, records, i as nat, page_id);
        }
    }
}

proof fn lemma_seated_push(records: Seq<LogView>, r: LogView)
    requires
        seated(records),
        r matches LogView::Insert { page_id, slot_id, data, .. } ==> {
            &&& slot_id == slots_taken(records, records.len(), page_id)
            &&& slot_at(slot_id as int) + 5 + data.len() + bytes_taken(
                records,
                records.len(),
                page_id,
            ) <= PAGE_SIZE
        },
    ensures
        seated(records.push(r)),
        forall|page: u32| #[trigger]
            slots_taken(records.push(r), records.len() + 1, page) == slots_taken(
                records,
                records.len(),
                page,
            ) + (if r is Insert && r->Insert_page_id == page {
                1nat
            } else {
                0nat
            }),
        forall|page: u32| #[trigger]
            bytes_taken(records.push(r), records.len() + 1, page) == bytes_taken(
                records,
                records.len(),
                page,
            ) + (if r is Insert && r->Insert_page_id == page {
                r->Insert_data.len()
            } else {
                0nat
            }),
{
    let all = records.push(r);
    assert forall|i: int| 0 <= i < all.len() implies #[trigger] seat_ok(all, i) by {
        if let LogView::Insert { page_id, .. } = all[i] {
            lemma_taken_prefix(records, all, i as nat, page_id);
            if i < records.len() {
                assert(seat_ok(records, i));
                assert(all[i] == records[i]);
            }
        }
    }
    assert forall|page: u32| #[trigger]
        slots_taken(all, records.len() + 1, page) == slots_taken(records, records.len(), page) + (
        if r is Insert && r->Insert_page_id == page {
            1nat
        } else {
            0nat
        }) by {
        lemma_taken_prefix(records, all, records.len(), page);
    }
    assert forall|page: u32| #[trigger]
        bytes_taken(all, records.len() + 1, page) == bytes_taken(records, records.len(), page) + (
        if r is Insert && r->Insert_page_id == page {
            r->Insert_data.len()
        } else {
            0nat
        }) by {
        lemma_taken_prefix(records, all, records.len(), page);
    }
}

/// Logging anything but an insertion keeps the log and its pages in step.
proof fn lemma_other_in_step(w: WalView, v: WalView, r: LogView)
    requires
        in_step(w),
        v.log == w.log,
        r.encodable(),
        !(r is Insert),
        forall|page: u32|
            page_taken(
                #[trigger] page_or_blank(v.pages, page),
                slots_taken(log_records(w.log), log_records(w.log).len(), page),
                bytes_taken(log_records(w.log), log_records(w.log).len(), page),
            ),
    ensures
        in_step(wal_append(v, r)),
{
    let records = log_records(w.log);
    let n = r.numbered(v.lsn);
    lemma_record_len(r);
    lemma_record_len(n);
    law_append_reads_back(v.log, n);
    lemma_seated_push(records, n);
    let x = wal_append(v, r);
    let all = records.push(n);
    assert forall|page: u32|
        page_taken(
            #[trigger] page_or_blank(x.pages, page),
            slots_taken(all, all.len(), page),
            bytes_taken(all, all.len(), page),
        ) by {
        assert(slots_taken(all, records.len() + 1, page) == slots_taken(
            records,
            records.len(),
            page,
        ));
        assert(bytes_taken(all, records.len() + 1, page) == bytes_taken(
            records,
            records.len(),
            page,
        ));
        assert(page_or_blank(v.pages, page) == page_or_blank(x.pages, page));
    }
}

/// Starting and ending transactions keeps every insertion of the log in the slot it names.
pub proof fn law_marks_stay_in_step(w: WalView, txn_id: u32)
    requires
        in_step(w),
    ensures
        in_step(wal_begin(w)),
        in_step(wal_commit(w, txn_id)),
        in_step(wal_abort(w, txn_id)),
{
    let v = WalView { next_txn: (w.next_txn + 1) as u32, active: w.active.insert(w.next_txn), ..w };
    let r = LogView::Begin { lsn: 0, txn_id: w.next_txn };
    lemma_record_len(r);
    lemma_other_in_step(w, v, r);
    let r = LogView::Commit { lsn: 0, txn_id };
    lemma_record_len(r);
    lemma_other_in_step(w, w, r);
    assert(in_step(wal_commit(w, txn_id)));
    let r = LogView::Abort { lsn: 0, txn_id };
    lemma_record_len(r);
    lemma_other_in_step(w, w, r);
    assert(in_step(wal_abort(w, txn_id)));
}

/// Logging an insertion keeps every insertion of the log in the slot it names.
pub proof fn law_insert_stays_in_step(w: WalView, txn_id: u32, page_id: u32, data: Seq<u8>)
    requires
        in_step(w),
    ensures
        in_step(wal_insert(w, txn_id, page_id, data)),
{
    let records = log_records(w.log);
    let d = page_or_blank(w.pages, page_id);
    let slots = slots_taken(records, records.len(), page_id);
    let bytes = bytes_taken(records, records.len(), page_id);
    assert(page_taken(d, slots, bytes));
    let v = WalView { pages: w.pages.insert(page_id, page_try_put(d, data)), ..w };
    if page_fits(d, data.len()) {
        lemma_put_taken(d, slots, bytes, data);
        let r = LogView::Insert { lsn: 0, txn_id, page_id, slot_id: page_count(d), data };
        let n = r.numbered(w.lsn);
        lemma_record_len(n);
        law_append_reads_back(w.log, n);
        lemma_seated_push(records, n);
        let x = wal_append(v, r);
        let all = records.push(n);
        assert forall|page: u32|
            page_taken(
                #[trigger] page_or_blank(x.pages, page),
                slots_taken(all, all.len(), page),
                bytes_taken(all, all.len(), page),
            ) by {
            assert(page_taken(
                page_or_blank(w.pages, page),
                slots_taken(records, records.len(), page),
                bytes_taken(records, records.len(), page),
            ));
            assert(slots_taken(all, records.len() + 1, page) == slots_taken(
                records,
                records.len(),
                page,
            ) + (if page == page_id {
                1nat
            } else {
                0nat
            }));
            assert(bytes_taken(all, records.len() + 1, page) == bytes_taken(
                records,
                records.len(),
                page,
            ) + (if page == page_id {
                data.len()
            } else {
                0nat
            }));
        }
    } else {
        assert forall|page: u32| #[trigger]
            page_or_blank(v.pages, page) == page_or_blank(w.pages, page) by {}
    }
}

/// Logging a deletion keeps every insertion of the log in the slot it names.
pub proof fn law_delete_stays_in_step(w: WalView, txn_id: u32, page_id: u32, slot_id: u16)
    requires
        in_step(w),
    ensures
        in_step(wal_delete(w, txn_id, page_id, slot_id)),
{
    let records = log_records(w.log);
    let d = page_or_blank(w.pages, page_id);
    let slots = slots_taken(records, records.len(), page_id);
    let bytes = bytes_taken(records, records.len(), page_id);
    assert(page_taken(d, slots, bytes));
    lemma_drop_taken(d, slots, bytes, slot_id);
    let pages = if w.pages.contains_key(page_id) {
        w.pages.insert(page_id, page_try_drop(w.pages[page_id], slot_id))
    } else {
        w.pages
    };
    let v = WalView { pages, ..w };
    assert forall|page: u32|
        page_taken(
            #[trigger] page_or_blank(v.pages, page),
            slots_taken(records, records.len(), page),
            bytes_taken(records, records.len(), page),
        ) by {
        assert(page_taken(
            page_or_blank(w.pages, page),
            slots_taken(records, records.len(), page),
            bytes_taken(records, records.len(), page),
        ));
    }
    let r = LogView::Delete {
        lsn: 0,
        txn_id,
        page_id,
        slot_id,
        old_data: wal_old_data(w, page_id, slot_id),
    };
    lemma_record_len(r);
    lemma_other_in_step(w, v, r);
}

/// Logging an update keeps every insertion of the log in the slot it names.
pub proof fn law_update_stays_in_step(
    w: WalView,
    txn_id: u32,
    page_id: u32,
    slot_id: u16,
    old_data: Seq<u8>,
    new_data: Seq<u8>,
)
    requires
        in_step(w),
        27 + old_data.len() + new_data.len() <= u32::MAX,
    ensures
        in_step(wal_update(w, txn_id, page_id, slot_id, old_data, new_data)),
{
    let r = LogView::Update { lsn: 0, txn_id, page_id, slot_id, old_data, new_data };
    lemma_record_len(r);
    lemma_other_in_step(w, w, r);
}

/// A new log is in step with its pages, and so is a log that is opened and recovered from.
pub proof fn law_recovery_is_in_step(log: Seq<u8>)
    requires
        seated(log_records(log)),
    ensures
        in_step(WalView { pages: recovered(log_records(log)), ..wal_opened(log) }),
        log.len() == 0 ==> in_step(wal_opened(log)),
{
    law_torn_record_is_dropped(log);
    let records = log_records(log);
    let w = WalView { pages: recovered(records), ..wal_opened(log) };
    assert forall|page: u32|
        page_taken(
            #[trigger] page_or_blank(w.pages, page),
            slots_taken(records, records.len(), page),
            bytes_taken(records, records.len(), page),
        ) by {
        lemma_redo_page(records, records.len(), page);
    }
    if log.len() == 0 {
        assert(records =~= Seq::empty());
        assert forall|page: u32|
            page_taken(#[trigger] page_or_blank(wal_opened(log).pages, page), 0, 0) by {
            lemma_blank_taken(page);
        }
    }
}

} // verus!
