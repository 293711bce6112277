//! Log records and their encoding.
//!
//! Every operation that touches data gets a log record written before the page is modified.
use crate::bytes::{
    copy_range, get_u16, get_u32, get_u64, holds_at, le16, le32, le64, lemma_un16, lemma_un32,
    lemma_un64, put_bytes, put_u16, put_u32, put_u64, un16, un32, un64,
};
use crate::engine::catalog::len32;
use vstd::prelude::*;

verus! {

/// One record of the write-ahead log. Every record has a log sequence number.
#[derive(Debug, PartialEq)]
pub enum LogRecord {
    /// Transaction started.
    Begin { lsn: u64, txn_id: u32 },
    /// A tuple was inserted.
    Insert {
        lsn: u64,
        txn_id: u32,
        page_id: u32,
        slot_id: u16,
        /// The tuple, to redo the insertion.
        data: Vec<u8>,
    },
    /// A tuple was deleted.
    Delete {
        lsn: u64,
        txn_id: u32,
        page_id: u32,
        slot_id: u16,
        /// The tuple before the deletion.
        old_data: Vec<u8>,
    },
    /// A tuple was updated.
    Update {
        lsn: u64,
        txn_id: u32,
        page_id: u32,
        slot_id: u16,
        /// The tuple before the update.
        old_data: Vec<u8>,
        /// The tuple after it, to redo the update.
        new_data: Vec<u8>,
    },
    /// Transaction committed.
    Commit { lsn: u64, txn_id: u32 },
    /// Transaction aborted.
    Abort { lsn: u64, txn_id: u32 },
    /// All pages up to this point are safely on disk.
    Checkpoint { lsn: u64 },
}

/// The mathematical counterpart of `LogRecord`.
#[verifier::ext_equal]
pub enum LogView {
    Begin { lsn: u64, txn_id: u32 },
    Insert { lsn: u64, txn_id: u32, page_id: u32, slot_id: u16, data: Seq<u8> },
    Delete { lsn: u64, txn_id: u32, page_id: u32, slot_id: u16, old_data: Seq<u8> },
    Update {
        lsn: u64,
        txn_id: u32,
        page_id: u32,
        slot_id: u16,
        old_data: Seq<u8>,
        new_data: Seq<u8>,
    },
    Commit { lsn: u64, txn_id: u32 },
    Abort { lsn: u64, txn_id: u32 },
    Checkpoint { lsn: u64 },
}

impl View for LogRecord {
    type V = LogView;

    open spec fn view(&self) -> LogView {
        match *self {
            LogRecord::Begin { lsn, txn_id } => LogView::Begin { lsn, txn_id },
            LogRecord::Insert { lsn, txn_id, page_id, slot_id, data } => LogView::Insert {
                lsn,
                txn_id,
                page_id,
                slot_id,
                data: data@,
            },
            LogRecord::Delete { lsn, txn_id, page_id, slot_id, old_data } => LogView::Delete {
                lsn,
                txn_id,
                page_id,
                slot_id,
                old_data: old_data@,
            },
            LogRecord::Update { lsn, txn_id, page_id, slot_id, old_data, new_data } => LogView::Update {
                lsn,
                txn_id,
                page_id,
                slot_id,
                old_data: old_data@,
                new_data: new_data@,
            },
            LogRecord::Commit { lsn, txn_id } => LogView::Commit { lsn, txn_id },
            LogRecord::Abort { lsn, txn_id } => LogView::Abort { lsn, txn_id },
            LogRecord::Checkpoint { lsn } => LogView::Checkpoint { lsn },
        }
    }
}

impl LogView {
    /// The log sequence number.
    pub open spec fn number(self) -> u64 {
        match self {
            LogView::Begin { lsn, .. } => lsn,
            LogView::Insert { lsn, .. } => lsn,
            LogView::Delete { lsn, .. } => lsn,
            LogView::Update { lsn, .. } => lsn,
            LogView::Commit { lsn, .. } => lsn,
            LogView::Abort { lsn, .. } => lsn,
            LogView::Checkpoint { lsn } => lsn,
        }
    }

    /// The transaction the record belongs to.
    pub open spec fn txn(self) -> Option<u32> {
        match self {
            LogView::Begin { txn_id, .. } => Some(txn_id),
            LogView::Insert { txn_id, .. } => Some(txn_id),
            LogView::Delete { txn_id, .. } => Some(txn_id),
            LogView::Update { txn_id, .. } => Some(txn_id),
            LogView::Commit { txn_id, .. } => Some(txn_id),
            LogView::Abort { txn_id, .. } => Some(txn_id),
            LogView::Checkpoint { .. } => None,
        }
    }

    /// The record with another log sequence number.
    pub open spec fn numbered(self, lsn: u64) -> LogView {
        match self {
            LogView::Begin { txn_id, .. } => LogView::Begin { lsn, txn_id },
            LogView::Insert { txn_id, page_id, slot_id, data, .. } => LogView::Insert {
                lsn,
                txn_id,
                page_id,
                slot_id,
                data,
            },
            LogView::Delete { txn_id, page_id, slot_id, old_data, .. } => LogView::Delete {
                lsn,
                txn_id,
                page_id,
                slot_id,
                old_data,
            },
            LogView::Update { txn_id, page_id, slot_id, old_data, new_data, .. } => LogView::Update {
                lsn,
                txn_id,
                page_id,
                slot_id,
                old_data,
                new_data,
            },
            LogView::Commit { txn_id, .. } => LogView::Commit { lsn, txn_id },
            LogView::Abort { txn_id, .. } => LogView::Abort { lsn, txn_id },
            LogView::Checkpoint { .. } => LogView::Checkpoint { lsn },
        }
    }

    /// The length of the record fits its length field.
    pub open spec fn encodable(self) -> bool {
        record_bytes(self).len() <= u32::MAX
    }
}

/// A byte string after its length.
pub open spec fn sized(data: Seq<u8>) -> Seq<u8> {
    le32(len32(data.len())) + data
}

/// What follows the type byte and the log sequence number in a record on a tuple.
pub open spec fn place_bytes(txn_id: u32, page_id: u32, slot_id: u16) -> Seq<u8> {
    le32(txn_id) + le32(page_id) + le16(slot_id)
}

/// A record without its frame: type byte, log sequence number, payload.
pub open spec fn record_bytes(r: LogView) -> Seq<u8> {
    match r {
        LogView::Begin { lsn, txn_id } => seq![0u8] + le64(lsn) + le32(txn_id),
        LogView::Insert { lsn, txn_id, page_id, slot_id, data } => seq![1u8] + le64(lsn)
            + place_bytes(txn_id, page_id, slot_id) + sized(data),
        LogView::Delete { lsn, txn_id, page_id, slot_id, old_data } => seq![2u8] + le64(lsn)
            + place_bytes(txn_id, page_id, slot_id) + sized(old_data),
        LogView::Update { lsn, txn_id, page_id, slot_id, old_data, new_data } => seq![3u8] + le64(
            lsn,
        ) + place_bytes(txn_id, page_id, slot_id) + sized(old_data) + sized(new_data),
        LogView::Commit { lsn, txn_id } => seq![4u8] + le64(lsn) + le32(txn_id),
        LogView::Abort { lsn, txn_id } => seq![5u8] + le64(lsn) + le32(txn_id),
        LogView::Checkpoint { lsn } => seq![6u8] + le64(lsn),
    }
}

/// A record as it stands in the log: its length, and its bytes.
pub open spec fn framed(r: LogView) -> Seq<u8> {
    sized(record_bytes(r))
}

/// A byte string after its length at `off` lies inside `buf`.
pub open spec fn has_sized(buf: Seq<u8>, off: int) -> bool {
    off + 4 <= buf.len() && off + 4 + un32(buf, off) <= buf.len()
}

/// The byte string after its length at `off`.
pub open spec fn sized_at(buf: Seq<u8>, off: int) -> Seq<u8> {
    buf.subrange(off + 4, off + 4 + un32(buf, off))
}

/// The record whose bytes `buf` starts with, if it is whole and of a known type.
pub open spec fn record_of(buf: Seq<u8>) -> Option<LogView> {
    let lsn = un64(buf, 1);
    let txn_id = un32(buf, 9);
    let page_id = un32(buf, 13);
    let slot_id = un16(buf, 17);
    if buf.len() == 0 {
        None
    } else if buf[0] == 0 && buf.len() >= 13 {
        Some(LogView::Begin { lsn, txn_id })
    } else if buf[0] == 1 && has_sized(buf, 19) {
        Some(LogView::Insert { lsn, txn_id, page_id, slot_id, data: sized_at(buf, 19) })
    } else if buf[0] == 2 && has_sized(buf, 19) {
        Some(LogView::Delete { lsn, txn_id, page_id, slot_id, old_data: sized_at(buf, 19) })
    } else if buf[0] == 3 && has_sized(buf, 19) && has_sized(buf, 23 + un32(buf, 19)) {
        Some(
            LogView::Update {
                lsn,
                txn_id,
                page_id,
                slot_id,
                old_data: sized_at(buf, 19),
                new_data: sized_at(buf, 23 + un32(buf, 19)),
            },
        )
    } else if buf[0] == 4 && buf.len() >= 13 {
        Some(LogView::Commit { lsn, txn_id })
    } else if buf[0] == 5 && buf.len() >= 13 {
        Some(LogView::Abort { lsn, txn_id })
    } else if buf[0] == 6 && buf.len() >= 9 {
        Some(LogView::Checkpoint { lsn })
    } else {
        None
    }
}

fn put_sized(buf: &mut Vec<u8>, data: &[u8])
    ensures
        final(buf)@ == old(buf)@ + sized(data@),
{
    put_u32(buf, (data.len() as u64 % 0x1_0000_0000) as u32);
    put_bytes(buf, data);
    assert(buf@ =~= old(buf)@ + sized(data@));
}

fn put_place(buf: &mut Vec<u8>, txn_id: u32, page_id: u32, slot_id: u16)
    ensures
        final(buf)@ == old(buf)@ + place_bytes(txn_id, page_id, slot_id),
{
    put_u32(buf, txn_id);
    put_u32(buf, page_id);
    put_u16(buf, slot_id);
    assert(buf@ =~= old(buf)@ + place_bytes(txn_id, page_id, slot_id));
}

/// Reads a byte string after its length.
fn get_sized(buf: &[u8], off: usize) -> (res: Option<Vec<u8>>)
    ensures
        match res {
            Some(v) => has_sized(buf@, off as int) && v@ == sized_at(buf@, off as int),
            None => !has_sized(buf@, off as int),
        },
{
    let len: usize = buf.len();
    if off > len || len - off < 4 {
        return None;
    }
    let n: usize = get_u32(buf, off) as usize;
    if len - off - 4 < n {
        return None;
    }
    Some(copy_range(buf, off + 4, off + 4 + n))
}

impl LogRecord {
    pub fn lsn(&self) -> (n: u64)
        ensures
            n == self@.number(),
    {
        match self {
            LogRecord::Begin { lsn, .. } => *lsn,
            LogRecord::Insert { lsn, .. } => *lsn,
            LogRecord::Delete { lsn, .. } => *lsn,
            LogRecord::Update { lsn, .. } => *lsn,
            LogRecord::Commit { lsn, .. } => *lsn,
            LogRecord::Abort { lsn, .. } => *lsn,
            LogRecord::Checkpoint { lsn } => *lsn,
        }
    }

    pub fn txn_id(&self) -> (id: Option<u32>)
        ensures
            id == self@.txn(),
    {
        match self {
            LogRecord::Begin { txn_id, .. } => Some(*txn_id),
            LogRecord::Insert { txn_id, .. } => Some(*txn_id),
            LogRecord::Delete { txn_id, .. } => Some(*txn_id),
            LogRecord::Update { txn_id, .. } => Some(*txn_id),
            LogRecord::Commit { txn_id, .. } => Some(*txn_id),
            LogRecord::Abort { txn_id, .. } => Some(*txn_id),
            LogRecord::Checkpoint { .. } => None,
        }
    }

    const TYPE_BEGIN: u8 = 0;

    const TYPE_INSERT: u8 = 1;

    const TYPE_DELETE: u8 = 2;

    const TYPE_UPDATE: u8 = 3;

    const TYPE_COMMIT: u8 = 4;

    const TYPE_ABORT: u8 = 5;

    const TYPE_CHECKPOINT: u8 = 6;

    /// The record as it stands in the log: its length, so that records can be read back one at a
    /// time, a type byte, the log sequence number and the payload.
    pub fn to_bytes(&self) -> (out: Vec<u8>)
        ensures
            out@ == framed(self@),
    {
        let mut buf: Vec<u8> = Vec::new();
        match self {
            LogRecord::Begin { lsn, txn_id } => {
                buf.push(Self::TYPE_BEGIN);
                put_u64(&mut buf, *lsn);
                put_u32(&mut buf, *txn_id);
            },
            LogRecord::Insert { lsn, txn_id, page_id, slot_id, data } => {
                buf.push(Self::TYPE_INSERT);
                put_u64(&mut buf, *lsn);
                put_place(&mut buf, *txn_id, *page_id, *slot_id);
                put_sized(&mut buf, data.as_slice());
            },
            LogRecord::Delete { lsn, txn_id, page_id, slot_id, old_data } => {
                buf.push(Self::TYPE_DELETE);
                put_u64(&mut buf, *lsn);
                put_place(&mut buf, *txn_id, *page_id, *slot_id);
                put_sized(&mut buf, old_data.as_slice());
            },
            LogRecord::Update { lsn, txn_id, page_id, slot_id, old_data, new_data } => {
                buf.push(Self::TYPE_UPDATE);
                put_u64(&mut buf, *lsn);
                put_place(&mut buf, *txn_id, *page_id, *slot_id);
                put_sized(&mut buf, old_data.as_slice());
                put_sized(&mut buf, new_data.as_slice());
            },
            LogRecord::Commit { lsn, txn_id } => {
                buf.push(Self::TYPE_COMMIT);
                put_u64(&mut buf, *lsn);
                put_u32(&mut buf, *txn_id);
            },
            LogRecord::Abort { lsn, txn_id } => {
                buf.push(Self::TYPE_ABORT);
                put_u64(&mut buf, *lsn);
                put_u32(&mut buf, *txn_id);
            },
            LogRecord::Checkpoint { lsn } => {
                buf.push(Self::TYPE_CHECKPOINT);
                put_u64(&mut buf, *lsn);
            },
        }
        assert(buf@ =~= record_bytes(self@));
        let mut out: Vec<u8> = Vec::new();
        put_sized(&mut out, buf.as_slice());
        assert(out@ =~= framed(self@));
        out
    }

    /// Reads a record without its frame. `None` if it is cut short or of an unknown type.
    pub fn from_bytes(buf: &[u8]) -> (res: Option<Self>)
        ensures
            match res {
                Some(r) => record_of(buf@) == Some(r@),
                None => record_of(buf@) is None,
            },
    {
        let len: usize = buf.len();
        if len == 0 {
            return None;
        }
        let record_type: u8 = buf[0];
        if record_type == Self::TYPE_CHECKPOINT {
            if len < 9 {
                return None;
            }
            return Some(LogRecord::Checkpoint { lsn: get_u64(buf, 1) });
        }
        if len < 13 {
            return None;
        }
        let lsn: u64 = get_u64(buf, 1);
        let txn_id: u32 = get_u32(buf, 9);
        if record_type == Self::TYPE_BEGIN {
            return Some(LogRecord::Begin { lsn, txn_id });
        }
        if record_type == Self::TYPE_COMMIT {
            return Some(LogRecord::Commit { lsn, txn_id });
        }
        if record_type == Self::TYPE_ABORT {
            return Some(LogRecord::Abort { lsn, txn_id });
        }
        if len < 19 {
            return None;
        }
        let page_id: u32 = get_u32(buf, 13);
        let slot_id: u16 = get_u16(buf, 17);
        if record_type == Self::TYPE_INSERT {
            match get_sized(buf, 19) {
                None => None,
                Some(data) => Some(LogRecord::Insert { lsn, txn_id, page_id, slot_id, data }),
            }
        } else if record_type == Self::TYPE_DELETE {
            match get_sized(buf, 19) {
                None => None,
                Some(old_data) => Some(
                    LogRecord::Delete { lsn, txn_id, page_id, slot_id, old_data },
                ),
            }
        } else if record_type == Self::TYPE_UPDATE {
            match get_sized(buf, 19) {
                None => None,
                Some(old_data) => {
                    let next: usize = 23 + old_data.len();
                    match get_sized(buf, next) {
                        None => None,
                        Some(new_data) => Some(
                            LogRecord::Update {
                                lsn,
                                txn_id,
                                page_id,
                                slot_id,
                                old_data,
                                new_data,
                            },
                        ),
                    }
                },
            }
        } else {
            None
        }
    }
}

/// A byte string written after its length is read back.
pub proof fn lemma_sized_back(buf: Seq<u8>, off: int, data: Seq<u8>)
    requires
        data.len() <= u32::MAX,
        holds_at(buf, off, sized(data)),
    ensures
        has_sized(buf, off),
        un32(buf, off) == data.len(),
        sized_at(buf, off) == data,
{
    let n = len32(data.len());
    let b = sized(data);
    assert forall|i: int| 0 <= i < 4 implies #[trigger] buf[off + i] == le32(n)[i] by {
        assert(buf[off + i] == b[i]);
    }
    lemma_un32(buf, off, n);
    assert forall|i: int| 0 <= i < data.len() implies #[trigger] sized_at(buf, off)[i]
        == data[i] by {
        assert(buf[off + (4 + i)] == b[4 + i]);
    }
    assert(sized_at(buf, off) =~= data);
}

proof fn lemma_place_back(buf: Seq<u8>, txn_id: u32, page_id: u32, slot_id: u16)
    requires
        holds_at(buf, 9, place_bytes(txn_id, page_id, slot_id)),
    ensures
        un32(buf, 9) == txn_id,
        un32(buf, 13) == page_id,
        un16(buf, 17) == slot_id,
{
    let b = place_bytes(txn_id, page_id, slot_id);
    assert forall|i: int| 0 <= i < 4 implies #[trigger] buf[9 + i] == le32(txn_id)[i] by {
        assert(buf[9 + i] == b[i]);
    }
    assert forall|i: int| 0 <= i < 4 implies #[trigger] buf[13 + i] == le32(page_id)[i] by {
        assert(buf[9 + (4 + i)] == b[4 + i]);
    }
    assert forall|i: int| 0 <= i < 2 implies #[trigger] buf[17 + i] == le16(slot_id)[i] by {
        assert(buf[9 + (8 + i)] == b[8 + i]);
    }
    lemma_un32(buf, 9, txn_id);
    lemma_un32(buf, 13, page_id);
    lemma_un16(buf, 17, slot_id);
}

proof fn lemma_short_back(tag: u8, lsn: u64, txn_id: u32, b: Seq<u8>)
    requires
        b == seq![tag] + le64(lsn) + le32(txn_id),
    ensures
        b.len() == 13,
        b[0] == tag,
        un64(b, 1) == lsn,
        un32(b, 9) == txn_id,
{
    assert(holds_at(b, 1, le64(lsn)));
    lemma_un64(b, 1, lsn);
    assert(holds_at(b, 9, le32(txn_id)));
    lemma_un32(b, 9, txn_id);
}

/// The fields at the front of a record on a tuple, whatever follows them.
proof fn lemma_head_back(
    tag: u8,
    lsn: u64,
    txn_id: u32,
    page_id: u32,
    slot_id: u16,
    rest: Seq<u8>,
    b: Seq<u8>,
)
    requires
        b == seq![tag] + le64(lsn) + place_bytes(txn_id, page_id, slot_id) + rest,
    ensures
        b.len() == 19 + rest.len(),
        b[0] == tag,
        un64(b, 1) == lsn,
        un32(b, 9) == txn_id,
        un32(b, 13) == page_id,
        un16(b, 17) == slot_id,
        holds_at(b, 19, rest),
{
    let place = place_bytes(txn_id, page_id, slot_id);
    assert(place.len() == 10);
    assert(le64(lsn).len() == 8);
    assert(holds_at(b, 1, le64(lsn)));
    lemma_un64(b, 1, lsn);
    assert(holds_at(b, 9, place));
    lemma_place_back(b, txn_id, page_id, slot_id);
}

proof fn lemma_update_back(
    lsn: u64,
    txn_id: u32,
    page_id: u32,
    slot_id: u16,
    old_data: Seq<u8>,
    new_data: Seq<u8>,
    b: Seq<u8>,
)
    requires
        b.len() <= u32::MAX,
        b == seq![3u8] + le64(lsn) + place_bytes(txn_id, page_id, slot_id) + sized(old_data)
            + sized(new_data),
    ensures
        record_of(b) == Some(
            LogView::Update { lsn, txn_id, page_id, slot_id, old_data, new_data },
        ),
{
    let rest = sized(old_data) + sized(new_data);
    assert(b =~= seq![3u8] + le64(lsn) + place_bytes(txn_id, page_id, slot_id) + rest);
    lemma_head_back(3, lsn, txn_id, page_id, slot_id, rest, b);
    assert(sized(old_data).len() == 4 + old_data.len());
    assert(sized(new_data).len() == 4 + new_data.len());
    assert forall|i: int| 0 <= i < sized(old_data).len() implies #[trigger] b[19 + i] == sized(
        old_data,
    )[i] by {
        assert(b[19 + i] == rest[i]);
    }
    lemma_sized_back(b, 19, old_data);
    let off = 23int + old_data.len();
    assert forall|i: int| 0 <= i < sized(new_data).len() implies #[trigger] b[off + i] == sized(
        new_data,
    )[i] by {
        assert(b[19 + (sized(old_data).len() + i)] == rest[sized(old_data).len() + i]);
    }
    lemma_sized_back(b, off, new_data);
}

/// The byte string at the end of a record on a tuple.
proof fn lemma_tail_back(b: Seq<u8>, data: Seq<u8>)
    requires
        b.len() <= u32::MAX,
        b.len() == 19 + sized(data).len(),
        holds_at(b, 19, sized(data)),
    ensures
        b.len() == 23 + data.len(),
        has_sized(b, 19),
        sized_at(b, 19) == data,
{
    assert(sized(data).len() == 4 + data.len());
    lemma_sized_back(b, 19, data);
}

/// What the parts of a record make.
proof fn lemma_read_insert(
    lsn: u64,
    txn_id: u32,
    page_id: u32,
    slot_id: u16,
    data: Seq<u8>,
    b: Seq<u8>,
)
    requires
        b.len() == 23 + data.len(),
        b[0] == 1,
        un64(b, 1) == lsn,
        un32(b, 9) == txn_id,
        un32(b, 13) == page_id,
        un16(b, 17) == slot_id,
        has_sized(b, 19),
        sized_at(b, 19) == data,
    ensures
        record_of(b) == Some(LogView::Insert { lsn, txn_id, page_id, slot_id, data }),
{
}

proof fn lemma_insert_back(
    lsn: u64,
    txn_id: u32,
    page_id: u32,
    slot_id: u16,
    data: Seq<u8>,
    b: Seq<u8>,
)
    requires
        b.len() <= u32::MAX,
        b == seq![1u8] + le64(lsn) + place_bytes(txn_id, page_id, slot_id) + sized(data),
    ensures
        record_of(b) == Some(LogView::Insert { lsn, txn_id, page_id, slot_id, data }),
{
    lemma_head_back(1, lsn, txn_id, page_id, slot_id, sized(data), b);
    lemma_tail_back(b, data);
    lemma_read_insert(lsn, txn_id, page_id, slot_id, data, b);
}

/// What the parts of a record make.
proof fn lemma_read_delete(
    lsn: u64,
    txn_id: u32,
    page_id: u32,
    slot_id: u16,
    old_data: Seq<u8>,
    b: Seq<u8>,
)
    requires
        b.len() == 23 + old_data.len(),
        b[0] == 2,
        un64(b, 1) == lsn,
        un32(b, 9) == txn_id,
        un32(b, 13) == page_id,
        un16(b, 17) == slot_id,
        has_sized(b, 19),
        sized_at(b, 19) == old_data,
    ensures
        record_of(b) == Some(LogView::Delete { lsn, txn_id, page_id, slot_id, old_data }),
{
}

proof fn lemma_delete_back(
    lsn: u64,
    txn_id: u32,
    page_id: u32,
    slot_id: u16,
    old_data: Seq<u8>,
    b: Seq<u8>,
)
    requires
        b.len() <= u32::MAX,
        b == seq![2u8] + le64(lsn) + place_bytes(txn_id, page_id, slot_id) + sized(old_data),
    ensures
        record_of(b) == Some(LogView::Delete { lsn, txn_id, page_id, slot_id, old_data }),
{
    lemma_head_back(2, lsn, txn_id, page_id, slot_id, sized(old_data), b);
    lemma_tail_back(b, old_data);
    lemma_read_delete(lsn, txn_id, page_id, slot_id, old_data, b);
}

/// What `to_bytes` gives for a record starts with the length of the rest, and `from_bytes` reads
/// the record back from the rest.
pub proof fn law_record_round_trip(r: LogView)
    requires
        r.encodable(),
    ensures
        framed(r).len() >= 4,
        un32(framed(r), 0) == framed(r).len() - 4,
        record_of(framed(r).skip(4)) == Some(r),
{
    lemma_record_back(r);
    lemma_frame(record_bytes(r));
}

/// The two parts of a frame.
proof fn lemma_frame(b: Seq<u8>)
    requires
        b.len() <= u32::MAX,
    ensures
        sized(b).len() == 4 + b.len(),
        un32(sized(b), 0) == b.len(),
        sized(b).skip(4) == b,
{
    lemma_sized_back(sized(b), 0, b);
    assert(sized(b).skip(4) =~= b);
}

/// Different records have different encodings.
pub proof fn law_encodings_are_distinct(a: LogView, b: LogView)
    requires
        a.encodable(),
        b.encodable(),
        framed(a) == framed(b),
    ensures
        a == b,
{
    law_record_round_trip(a);
    law_record_round_trip(b);
}

/// The length of a record.
pub proof fn lemma_record_len(r: LogView)
    ensures
        record_bytes(r).len() == (match r {
            LogView::Insert { data, .. } => 23 + data.len(),
            LogView::Delete { old_data, .. } => 23 + old_data.len(),
            LogView::Update { old_data, new_data, .. } => 27 + old_data.len() + new_data.len(),
            LogView::Checkpoint { .. } => 9,
            _ => 13,
        }),
{
}

/// Reading the bytes of a record gives the record.
pub proof fn lemma_record_back(r: LogView)
    requires
        r.encodable(),
    ensures
        record_of(record_bytes(r)) == Some(r),
{
    let b = record_bytes(r);
    match r {
        LogView::Begin { lsn, txn_id } => {
            lemma_short_back(0, lsn, txn_id, b);
        },
        LogView::Commit { lsn, txn_id } => {
            lemma_short_back(4, lsn, txn_id, b);
        },
        LogView::Abort { lsn, txn_id } => {
            lemma_short_back(5, lsn, txn_id, b);
        },
        LogView::Insert { lsn, txn_id, page_id, slot_id, data } => {
            lemma_insert_back(lsn, txn_id, page_id, slot_id, data, b);
        },
        LogView::Delete { lsn, txn_id, page_id, slot_id, old_data } => {
            lemma_delete_back(lsn, txn_id, page_id, slot_id, old_data, b);
        },
        LogView::Update { lsn, txn_id, page_id, slot_id, old_data, new_data } => {
            lemma_update_back(lsn, txn_id, page_id, slot_id, old_data, new_data, b);
        },
        LogView::Checkpoint { lsn } => {
            assert(holds_at(b, 1, le64(lsn)));
            lemma_un64(b, 1, lsn);
        },
    }
}

} // verus!
