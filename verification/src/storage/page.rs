//! Slotted pages: a header, a slot array growing forwards and tuples growing backwards.
use crate::bytes::{
    get_u16, get_u32, holds_at, le16, le32, lemma_un16, lemma_un32, put_u16, put_u32, splice, un16,
    un32,
};
use vstd::prelude::*;

verus! {

/// Size of a page in bytes, in memory and on disk.
pub const PAGE_SIZE: usize = 4096;

/// Identifies a tuple's position within a page.
pub type SlotId = u16;

/// Points to one tuple of the whole database.
#[derive(Debug, Clone, Copy, PartialEq, Eq, Hash, Structural)]
pub struct Rid {
    pub page_id: u32,
    pub slot_id: SlotId,
}

/// Slot entry: where in the page a tuple lives.
#[derive(Debug, Clone, Copy, PartialEq, Eq, Structural)]
pub struct Slot {
    /// Byte offset from the start of the page.
    pub offset: u16,
    /// Byte length of the tuple.
    pub length: u16,
    /// False once the tuple is deleted.
    pub active: bool,
}

/// Fixed metadata at the very start of a page.
#[derive(Debug, Clone, Copy, PartialEq, Eq, Structural)]
pub struct PageHeader {
    pub page_id: u32,
    pub num_slots: u16,
    /// Start of the lowest tuple: tuples grow backwards from the end of the page.
    pub free_space_offset: u16,
    pub checksum: u32,
}

/// The CRC-32 of a byte string, as the `crc32fast` crate computes it.
pub uninterp spec fn crc32_of(data: Seq<u8>) -> u32;

/// Calls `crc32fast::hash`, the one-shot CRC-32 (IEEE) of a byte string. The contract claims only
/// that the result is a function of the bytes.
#[verifier::external_body]
fn crc32(data: &[u8]) -> (sum: u32)
    ensures
        sum == crc32_of(data@),
{
    crc32fast::hash(data)
}

/// The twelve bytes of a header.
pub open spec fn header_bytes(h: PageHeader) -> Seq<u8> {
    le32(h.page_id) + le16(h.num_slots) + le16(h.free_space_offset) + le32(h.checksum)
}

/// The header stored in the first twelve bytes of `d`.
pub open spec fn header_of(d: Seq<u8>) -> PageHeader {
    PageHeader {
        page_id: un32(d, 0),
        num_slots: un16(d, 4),
        free_space_offset: un16(d, 6),
        checksum: un32(d, 8),
    }
}

/// The five bytes of a slot.
pub open spec fn slot_bytes(s: Slot) -> Seq<u8> {
    le16(s.offset) + le16(s.length) + seq![if s.active {
        1u8
    } else {
        0u8
    }]
}

/// The slot stored in the five bytes of `d` from `at`.
pub open spec fn slot_of(d: Seq<u8>, at: int) -> Slot {
    Slot { offset: un16(d, at), length: un16(d, at + 2), active: d[at + 4] != 0 }
}

/// Where slot `i` starts.
pub open spec fn slot_at(i: int) -> int {
    12 + 5 * i
}

/// Number of slots in use, deleted ones included.
pub open spec fn page_count(d: Seq<u8>) -> u16 {
    header_of(d).num_slots
}

/// Bytes between the slot array and the lowest tuple.
pub open spec fn page_room(d: Seq<u8>) -> nat {
    let end = slot_at(page_count(d) as int);
    if header_of(d).free_space_offset >= end {
        (header_of(d).free_space_offset - end) as nat
    } else {
        0
    }
}

/// Slot `i` exists and is active.
pub open spec fn page_live(d: Seq<u8>, i: int) -> bool {
    &&& 0 <= i < page_count(d)
    &&& slot_at(i) + 5 <= PAGE_SIZE
    &&& slot_of(d, slot_at(i)).active
}

/// Slot `i` exists, is active, and its tuple lies inside the page.
pub open spec fn page_has(d: Seq<u8>, i: int) -> bool {
    let s = slot_of(d, slot_at(i));
    page_live(d, i) && s.offset + s.length <= PAGE_SIZE
}

/// The tuple in slot `i` can be overwritten by `len` bytes.
pub open spec fn page_takes(d: Seq<u8>, i: int, len: nat) -> bool {
    let s = slot_of(d, slot_at(i));
    page_live(d, i) && len <= s.length && s.offset + len <= PAGE_SIZE
}

/// The tuple in slot `i`, if it is there.
pub open spec fn page_get(d: Seq<u8>, i: int) -> Option<Seq<u8>> {
    let s = slot_of(d, slot_at(i));
    if page_has(d, i) {
        Some(d.subrange(s.offset as int, s.offset + s.length))
    } else {
        None
    }
}

/// A tuple of `len` bytes and one more slot fit into the page.
pub open spec fn page_fits(d: Seq<u8>, len: nat) -> bool {
    let h = header_of(d);
    &&& len <= u16::MAX
    &&& h.free_space_offset <= PAGE_SIZE
    &&& slot_at(h.num_slots as int) + 5 + len <= h.free_space_offset
}

/// The page after tuple `t` took the next slot.
pub open spec fn page_put(d: Seq<u8>, t: Seq<u8>) -> Seq<u8> {
    let h = header_of(d);
    let start = h.free_space_offset - t.len();
    let slot = Slot { offset: start as u16, length: t.len() as u16, active: true };
    let header = PageHeader {
        num_slots: (h.num_slots + 1) as u16,
        free_space_offset: start as u16,
        ..h
    };
    splice(
        splice(splice(d, start, t), slot_at(h.num_slots as int), slot_bytes(slot)),
        0,
        header_bytes(header),
    )
}

/// The page after the tuple in slot `i` was overwritten from its start by `t`.
pub open spec fn page_overwrite(d: Seq<u8>, i: int, t: Seq<u8>) -> Seq<u8> {
    splice(d, slot_of(d, slot_at(i)).offset as int, t)
}

/// The page after slot `i` was marked deleted.
pub open spec fn page_drop(d: Seq<u8>, i: int) -> Seq<u8> {
    splice(d, slot_at(i), slot_bytes(Slot { active: false, ..slot_of(d, slot_at(i)) }))
}

/// The page with its checksum field zeroed: what the checksum is computed over.
pub open spec fn page_body(d: Seq<u8>) -> Seq<u8> {
    splice(d, 8, le32(0))
}

/// The page with checksum `sum` embedded.
pub open spec fn page_sealed(d: Seq<u8>) -> Seq<u8> {
    splice(d, 8, le32(crc32_of(page_body(d))))
}

/// The embedded checksum is that of the page.
pub open spec fn page_valid(d: Seq<u8>) -> bool {
    un32(d, 8) == crc32_of(page_body(d))
}

/// The bytes of an empty page with id `id`.
pub open spec fn page_blank(id: u32) -> Seq<u8> {
    splice(
        Seq::new(PAGE_SIZE as nat, |i: int| 0u8),
        0,
        header_bytes(
            PageHeader {
                page_id: id,
                num_slots: 0,
                free_space_offset: PAGE_SIZE as u16,
                checksum: 0,
            },
        ),
    )
}

/// The layout every page operation keeps: the slot array ends before the tuples start, each tuple
/// lies inside the page, and each tuple lies wholly below the ones inserted before it.
pub open spec fn page_wf(d: Seq<u8>) -> bool {
    let h = header_of(d);
    &&& d.len() == PAGE_SIZE
    &&& slot_at(h.num_slots as int) <= h.free_space_offset <= PAGE_SIZE
    &&& forall|i: int|
        0 <= i < h.num_slots ==> {
            let s = #[trigger] slot_of(d, slot_at(i));
            h.free_space_offset <= s.offset && s.offset + s.length <= PAGE_SIZE
        }
    &&& forall|i: int, j: int|
        0 <= i < j < h.num_slots ==> {
            let a = #[trigger] slot_of(d, slot_at(i));
            let b = #[trigger] slot_of(d, slot_at(j));
            b.offset + b.length <= a.offset
        }
}

/// Reading a header back gives the header that was written.
pub proof fn lemma_header_round_trip(d: Seq<u8>, h: PageHeader)
    requires
        holds_at(d, 0, header_bytes(h)),
    ensures
        header_of(d) == h,
{
    let b = header_bytes(h);
    assert forall|i: int| 0 <= i < 12 implies #[trigger] d[i] == b[i] by {
        assert(d[0 + i] == b[i]);
    }
    assert(holds_at(d, 0, le32(h.page_id)));
    assert(holds_at(d, 4, le16(h.num_slots)));
    assert(holds_at(d, 6, le16(h.free_space_offset)));
    assert(holds_at(d, 8, le32(h.checksum)));
    lemma_un32(d, 0, h.page_id);
    lemma_un16(d, 4, h.num_slots);
    lemma_un16(d, 6, h.free_space_offset);
    lemma_un32(d, 8, h.checksum);
}

/// Reading a slot back gives the slot that was written.
pub proof fn lemma_slot_round_trip(d: Seq<u8>, at: int, s: Slot)
    requires
        holds_at(d, at, slot_bytes(s)),
    ensures
        slot_of(d, at) == s,
{
    let b = slot_bytes(s);
    assert(d[at + 0] == b[0]);
    assert(d[at + 1] == b[1]);
    assert(d[at + 2] == b[2]);
    assert(d[at + 3] == b[3]);
    assert(d[at + 4] == b[4]);
    assert forall|i: int| 0 <= i < 2 implies #[trigger] d[at + i] == le16(s.offset)[i] by {}
    assert forall|i: int| 0 <= i < 2 implies #[trigger] d[at + 2 + i] == le16(s.length)[i] by {
        assert(d[at + (2 + i)] == b[2 + i]);
    }
    lemma_un16(d, at, s.offset);
    lemma_un16(d, at + 2, s.length);
}

/// Writing a header leaves every slot and every byte past it as they were.
proof fn lemma_header_splice(d: Seq<u8>, h: PageHeader)
    requires
        d.len() == PAGE_SIZE,
    ensures
        header_of(splice(d, 0, header_bytes(h))) == h,
        forall|i: int| 12 <= i < PAGE_SIZE ==> splice(d, 0, header_bytes(h))[i] == d[i],
{
    lemma_header_round_trip(splice(d, 0, header_bytes(h)), h);
}

impl PageHeader {
    pub const SIZE: usize = 12;

    pub fn to_bytes(&self) -> (buf: Vec<u8>)
        ensures
            buf@ == header_bytes(*self),
    {
        let mut buf: Vec<u8> = Vec::new();
        put_u32(&mut buf, self.page_id);
        put_u16(&mut buf, self.num_slots);
        put_u16(&mut buf, self.free_space_offset);
        put_u32(&mut buf, self.checksum);
        assert(buf@ =~= header_bytes(*self));
        buf
    }

    pub fn from_bytes(buf: &[u8]) -> (h: Self)
        requires
            buf@.len() >= PageHeader::SIZE,
        ensures
            h == header_of(buf@),
    {
        Self {
            page_id: get_u32(buf, 0),
            num_slots: get_u16(buf, 4),
            free_space_offset: get_u16(buf, 6),
            checksum: get_u32(buf, 8),
        }
    }
}

impl Slot {
    pub const SIZE: usize = 5;

    pub fn to_bytes(&self) -> (buf: Vec<u8>)
        ensures
            buf@ == slot_bytes(*self),
    {
        let mut buf: Vec<u8> = Vec::new();
        put_u16(&mut buf, self.offset);
        put_u16(&mut buf, self.length);
        buf.push(
            if self.active {
                1
            } else {
                0
            },
        );
        assert(buf@ =~= slot_bytes(*self));
        buf
    }

    pub fn from_bytes(buf: &[u8]) -> (s: Self)
        requires
            buf@.len() >= Slot::SIZE,
        ensures
            s == slot_of(buf@, 0),
    {
        Self { offset: get_u16(buf, 0), length: get_u16(buf, 2), active: buf[4] != 0 }
    }
}

/// A page in memory.
pub struct Page {
    pub id: u32,
    pub data: [u8; PAGE_SIZE],
    pub dirty: bool,
}

/// The mathematical counterpart of `Page`.
#[verifier::ext_equal]
pub struct PageView {
    pub id: u32,
    pub data: Seq<u8>,
    pub dirty: bool,
}

impl View for Page {
    type V = PageView;

    open spec fn view(&self) -> PageView {
        PageView { id: self.id, data: self.data@, dirty: self.dirty }
    }
}

impl Page {
    /// An empty page.
    pub fn new(id: u32) -> (page: Self)
        ensures
            page.id == id,
            page.dirty,
            page.data@ == page_blank(id),
    {
        let mut page = Self { id, data: [0u8;PAGE_SIZE], dirty: true };
        let header = PageHeader {
            page_id: id,
            num_slots: 0,
            free_space_offset: PAGE_SIZE as u16,
            checksum: 0,
        };
        assert(page.data@ =~= Seq::new(PAGE_SIZE as nat, |i: int| 0u8));
        page.write_header(&header);
        page
    }

    /// A page just read from disk.
    pub fn from_bytes(id: u32, data: [u8; PAGE_SIZE]) -> (page: Self)
        ensures
            page.id == id,
            !page.dirty,
            page.data == data,
    {
        Self { id, data, dirty: false }
    }

    /// Overwrites the bytes from `off` on by `part`.
    fn write_at(&mut self, off: usize, part: &[u8])
        requires
            off + part@.len() <= PAGE_SIZE,
        ensures
            final(self).data@ == splice(old(self).data@, off as int, part@),
            final(self).id == old(self).id,
            final(self).dirty == old(self).dirty,
    {
        let n: usize = part.len();
        let mut i: usize = 0;
        while i < n
            invariant
                n == part@.len(),
                i <= n,
                off + n <= PAGE_SIZE,
                self.id == old(self).id,
                self.dirty == old(self).dirty,
                self.data@ == splice(old(self).data@, off as int, part@.subrange(0, i as int)),
            decreases n - i,
        {
            self.data[off + i] = part[i];
            i = i + 1;
            assert(self.data@ =~= splice(
                old(self).data@,
                off as int,
                part@.subrange(0, i as int),
            ));
        }
        assert(part@.subrange(0, n as int) =~= part@);
    }

    fn read_header(&self) -> (h: PageHeader)
        ensures
            h == header_of(self.data@),
    {
        PageHeader::from_bytes(self.data.as_slice())
    }

    fn write_header(&mut self, header: &PageHeader)
        ensures
            final(self).data@ == splice(old(self).data@, 0, header_bytes(*header)),
            final(self).id == old(self).id,
            final(self).dirty == old(self).dirty,
    {
        let buf = header.to_bytes();
        self.write_at(0, buf.as_slice());
    }

    fn slot_offset(slot_id: SlotId) -> (off: usize)
        ensures
            off == slot_at(slot_id as int),
    {
        PageHeader::SIZE + slot_id as usize * Slot::SIZE
    }

    fn read_slot(&self, slot_id: SlotId) -> (s: Slot)
        requires
            slot_at(slot_id as int) + 5 <= PAGE_SIZE,
        ensures
            s == slot_of(self.data@, slot_at(slot_id as int)),
    {
        let off: usize = Self::slot_offset(slot_id);
        let all = self.data.as_slice();
        Slot::from_bytes(vstd::slice::slice_subrange(all, off, off + Slot::SIZE))
    }

    fn write_slot(&mut self, slot_id: SlotId, slot: &Slot)
        requires
            slot_at(slot_id as int) + 5 <= PAGE_SIZE,
        ensures
            final(self).data@ == splice(
                old(self).data@,
                slot_at(slot_id as int),
                slot_bytes(*slot),
            ),
            final(self).id == old(self).id,
            final(self).dirty == old(self).dirty,
    {
        let off: usize = Self::slot_offset(slot_id);
        let buf = slot.to_bytes();
        self.write_at(off, buf.as_slice());
    }

    /// Inserts a tuple. Returns the slot it took, or `None` if the page has no room for it.
    pub fn insert_tuple(&mut self, tuple: &[u8]) -> (res: Option<SlotId>)
        ensures
            match res {
                Some(slot_id) => {
                    &&& page_fits(old(self).data@, tuple@.len())
                    &&& slot_id == page_count(old(self).data@)
                    &&& final(self).data@ == page_put(old(self).data@, tuple@)
                    &&& final(self).id == old(self).id
                    &&& final(self).dirty
                },
                None => !page_fits(old(self).data@, tuple@.len()) && *final(self) == *old(self),
            },
    {
        let mut header = self.read_header();
        let len: usize = tuple.len();
        if len > 65535 || header.free_space_offset as usize > PAGE_SIZE
            || (header.free_space_offset as usize) < len {
            return None;
        }
        let tuple_len: u16 = len as u16;
        let new_free_offset: u16 = header.free_space_offset - tuple_len;
        let slot_area_end: usize = PageHeader::SIZE + (header.num_slots as usize + 1) * Slot::SIZE;
        if slot_area_end > new_free_offset as usize {
            return None;
        }
        self.write_at(new_free_offset as usize, tuple);
        let slot_id: SlotId = header.num_slots;
        self.write_slot(
            slot_id,
            &Slot { offset: new_free_offset, length: tuple_len, active: true },
        );
        header.num_slots = header.num_slots + 1;
        header.free_space_offset = new_free_offset;
        self.write_header(&header);
        self.dirty = true;
        Some(slot_id)
    }

    /// Reads a tuple by slot. `None` if it is deleted or invalid.
    pub fn get_tuple(&self, slot_id: SlotId) -> (res: Option<&[u8]>)
        ensures
            match res {
                Some(t) => page_get(self.data@, slot_id as int) == Some(t@),
                None => page_get(self.data@, slot_id as int) is None,
            },
    {
        match self.locate(slot_id) {
            None => None,
            Some(slot) => {
                let start: usize = slot.offset as usize;
                let end: usize = start + slot.length as usize;
                if end > PAGE_SIZE {
                    return None;
                }
                Some(vstd::slice::slice_subrange(self.data.as_slice(), start, end))
            },
        }
    }

    /// A copy of a tuple, with zeros for what lies in the checksum field: it does not depend on when
    /// the page was last written to disk.
    pub fn copy_tuple(&self, slot_id: SlotId) -> (res: Option<Vec<u8>>)
        ensures
            match res {
                Some(t) => page_get(page_body(self.data@), slot_id as int) == Some(t@),
                None => page_get(page_body(self.data@), slot_id as int) is None,
            },
    {
        let ghost d = self.data@;
        let ghost e = page_body(d);
        proof {
            assert(page_body(e) =~= e);
            law_body_reads(d, e);
            assert(page_has(d, slot_id as int) == page_has(e, slot_id as int));
        }
        match self.locate(slot_id) {
            None => None,
            Some(slot) => {
                let start: usize = slot.offset as usize;
                let end: usize = start + slot.length as usize;
                if end > PAGE_SIZE {
                    return None;
                }
                proof {
                    lemma_slot_frame(d, e, slot_id as int);
                }
                let mut tuple: Vec<u8> = Vec::new();
                let mut i: usize = start;
                while i < end
                    invariant
                        start <= i <= end,
                        end <= PAGE_SIZE,
                        d == self.data@,
                        e == page_body(d),
                        tuple@ == e.subrange(start as int, i as int),
                    decreases end - i,
                {
                    let b: u8 = if 8 <= i && i < 12 {
                        0
                    } else {
                        self.data[i]
                    };
                    assert(b == e[i as int]);
                    tuple.push(b);
                    assert(tuple@ =~= e.subrange(start as int, i + 1));
                    i = i + 1;
                }
                Some(tuple)
            },
        }
    }

    /// The slot entry of a tuple that is not deleted.
    fn locate(&self, slot_id: SlotId) -> (res: Option<Slot>)
        ensures
            match res {
                Some(s) => page_live(self.data@, slot_id as int) && s == slot_of(
                    self.data@,
                    slot_at(slot_id as int),
                ),
                None => !page_live(self.data@, slot_id as int),
            },
    {
        let header = self.read_header();
        if slot_id >= header.num_slots || Self::slot_offset(slot_id) + Slot::SIZE > PAGE_SIZE {
            return None;
        }
        let slot = self.read_slot(slot_id);
        if !slot.active {
            return None;
        }
        Some(slot)
    }

    /// Overwrites a tuple in place. False, with the page unchanged, if the tuple is deleted or
    /// invalid or `new_data` is longer than the tuple. A shorter `new_data` leaves the tuple's
    /// remaining bytes and its length as they were.
    pub fn update_tuple(&mut self, slot_id: SlotId, new_data: &[u8]) -> (res: bool)
        ensures
            res == page_takes(old(self).data@, slot_id as int, new_data@.len()),
            final(self).id == old(self).id,
            res ==> final(self).dirty && final(self).data@ == page_overwrite(
                old(self).data@,
                slot_id as int,
                new_data@,
            ),
            !res ==> *final(self) == *old(self),
    {
        match self.locate(slot_id) {
            None => false,
            Some(slot) => {
                if new_data.len() > slot.length as usize || slot.offset as usize + new_data.len()
                    > PAGE_SIZE {
                    return false;
                }
                self.write_at(slot.offset as usize, new_data);
                self.dirty = true;
                true
            },
        }
    }

    /// Marks a tuple as deleted; its space is not reclaimed.
    pub fn delete_tuple(&mut self, slot_id: SlotId) -> (res: bool)
        ensures
            res == page_live(old(self).data@, slot_id as int),
            final(self).id == old(self).id,
            res ==> final(self).dirty && final(self).data@ == page_drop(
                old(self).data@,
                slot_id as int,
            ),
            !res ==> *final(self) == *old(self),
    {
        match self.locate(slot_id) {
            None => false,
            Some(found) => {
                let mut slot = found;
                slot.active = false;
                self.write_slot(slot_id, &slot);
                self.dirty = true;
                true
            },
        }
    }

    /// How many bytes of usable free space remain.
    pub fn free_space(&self) -> (n: usize)
        ensures
            n == page_room(self.data@),
    {
        let header = self.read_header();
        let slot_area_end: usize = PageHeader::SIZE + header.num_slots as usize * Slot::SIZE;
        let free: usize = header.free_space_offset as usize;
        if free >= slot_area_end {
            free - slot_area_end
        } else {
            0
        }
    }

    pub fn num_slots(&self) -> (n: u16)
        ensures
            n == page_count(self.data@),
    {
        self.read_header().num_slots
    }

    /// Computes and embeds the checksum; to be called before the page is written to disk.
    pub fn finalize_checksum(&mut self)
        ensures
            final(self).data@ == page_sealed(old(self).data@),
            final(self).id == old(self).id,
            final(self).dirty == old(self).dirty,
    {
        let zero: [u8; 4] = [0u8;4];
        self.write_at(8, zero.as_slice());
        assert(zero@ =~= le32(0));
        let sum: u32 = crc32(self.data.as_slice());
        let mut buf: Vec<u8> = Vec::new();
        put_u32(&mut buf, sum);
        self.write_at(8, buf.as_slice());
        assert(buf@ =~= le32(sum));
        assert(self.data@ =~= page_sealed(old(self).data@));
    }

    /// Verifies the checksum after the page was read from disk.
    pub fn verify_checksum(&self) -> (ok: bool)
        ensures
            ok == page_valid(self.data@),
    {
        let stored: u32 = self.read_header().checksum;
        let mut temp = Page { id: self.id, data: self.data, dirty: self.dirty };
        let zero: [u8; 4] = [0u8;4];
        temp.write_at(8, zero.as_slice());
        assert(zero@ =~= le32(0));
        crc32(temp.data.as_slice()) == stored
    }

    /// A copy of the page.
    pub fn copy(&self) -> (page: Self)
        ensures
            page == *self,
    {
        Page { id: self.id, data: self.data, dirty: self.dirty }
    }
}

/// Splicing bytes that lie elsewhere leaves a slot as it was.
proof fn lemma_slot_frame(d: Seq<u8>, e: Seq<u8>, i: int)
    requires
        d.len() == PAGE_SIZE,
        e.len() == PAGE_SIZE,
        0 <= i,
        slot_at(i) + 5 <= PAGE_SIZE,
        forall|k: int| slot_at(i) <= k < slot_at(i) + 5 ==> d[k] == e[k],
    ensures
        slot_of(d, slot_at(i)) == slot_of(e, slot_at(i)),
{
    let at = slot_at(i);
    assert(d[at] == e[at] && d[at + 1] == e[at + 1] && d[at + 2] == e[at + 2] && d[at + 3] == e[at
        + 3] && d[at + 4] == e[at + 4]);
}

/// An empty page is well formed, holds no tuple and has all its room.
pub proof fn law_blank(id: u32)
    ensures
        page_wf(page_blank(id)),
        page_count(page_blank(id)) == 0,
        page_room(page_blank(id)) == PAGE_SIZE - PageHeader::SIZE,
{
    lemma_header_splice(
        Seq::new(PAGE_SIZE as nat, |i: int| 0u8),
        PageHeader {
            page_id: id,
            num_slots: 0,
            free_space_offset: PAGE_SIZE as u16,
            checksum: 0,
        },
    );
}

/// A tuple fits exactly when the free space holds it and its slot.
pub proof fn law_fits(d: Seq<u8>, len: nat)
    requires
        page_wf(d),
    ensures
        page_fits(d, len) <==> page_room(d) >= len + Slot::SIZE,
{
}

/// What an insertion does to a well-formed page: the new slot reads back the tuple, every other
/// slot reads back what it did, and the free space shrinks by the tuple and its slot.
pub proof fn law_insert(d: Seq<u8>, t: Seq<u8>)
    requires
        page_wf(d),
        page_fits(d, t.len()),
    ensures
        page_wf(page_put(d, t)),
        page_count(page_put(d, t)) == page_count(d) + 1,
        page_room(page_put(d, t)) == page_room(d) - t.len() - Slot::SIZE,
        page_get(page_put(d, t), page_count(d) as int) == Some(t),
        forall|i: int| i != page_count(d) ==> #[trigger] page_get(page_put(d, t), i) == page_get(d, i),
        header_of(page_put(d, t)).page_id == header_of(d).page_id,
        header_of(page_put(d, t)).checksum == header_of(d).checksum,
{
    let h = header_of(d);
    let n = h.num_slots as int;
    let start = h.free_space_offset - t.len();
    let slot = Slot { offset: start as u16, length: t.len() as u16, active: true };
    let header = PageHeader {
        num_slots: (h.num_slots + 1) as u16,
        free_space_offset: start as u16,
        ..h
    };
    let d1 = splice(d, start, t);
    let d2 = splice(d1, slot_at(n), slot_bytes(slot));
    let e = page_put(d, t);
    lemma_header_splice(d2, header);
    assert(e[slot_at(n) + 4] == 1);
    assert(holds_at(e, slot_at(n), slot_bytes(slot)));
    lemma_slot_round_trip(e, slot_at(n), slot);
    assert forall|i: int| 0 <= i < n implies #[trigger] slot_of(e, slot_at(i)) == slot_of(
        d,
        slot_at(i),
    ) by {
        lemma_slot_frame(d, e, i);
    }
    assert(e.subrange(start, start + t.len()) =~= t);
    assert forall|i: int| i != n implies #[trigger] page_get(e, i) == page_get(d, i) by {
        if 0 <= i < n {
            let s = slot_of(d, slot_at(i));
            assert(slot_of(e, slot_at(i)) == s);
            assert(e.subrange(s.offset as int, s.offset + s.length) =~= d.subrange(
                s.offset as int,
                s.offset + s.length,
            ));
        }
    }
}

/// What a deletion does to a well-formed page: the slot reads back nothing, every other slot reads
/// back what it did, and no space is reclaimed.
pub proof fn law_delete(d: Seq<u8>, k: int)
    requires
        page_wf(d),
        page_live(d, k),
    ensures
        page_wf(page_drop(d, k)),
        page_count(page_drop(d, k)) == page_count(d),
        page_room(page_drop(d, k)) == page_room(d),
        page_get(page_drop(d, k), k) is None,
        forall|i: int| i != k ==> #[trigger] page_get(page_drop(d, k), i) == page_get(d, i),
        header_of(page_drop(d, k)) == header_of(d),
{
    let e = page_drop(d, k);
    let slot = Slot { active: false, ..slot_of(d, slot_at(k)) };
    assert(holds_at(e, slot_at(k), slot_bytes(slot)));
    lemma_slot_round_trip(e, slot_at(k), slot);
    assert(header_of(e) == header_of(d));
    assert forall|i: int| 0 <= i < page_count(d) && i != k implies #[trigger] slot_of(
        e,
        slot_at(i),
    ) == slot_of(d, slot_at(i)) by {
        lemma_slot_frame(d, e, i);
    }
    assert forall|i: int| i != k implies #[trigger] page_get(e, i) == page_get(d, i) by {
        if 0 <= i < page_count(d) {
            let s = slot_of(d, slot_at(i));
            assert(slot_of(e, slot_at(i)) == s);
            assert(e.subrange(s.offset as int, s.offset + s.length) =~= d.subrange(
                s.offset as int,
                s.offset + s.length,
            ));
        }
    }
}

/// What an in-place update does to a well-formed page: the slot reads back the new bytes followed
/// by what the old tuple held past them, and every other slot reads back what it did.
pub proof fn law_update(d: Seq<u8>, k: int, t: Seq<u8>)
    requires
        page_wf(d),
        page_takes(d, k, t.len()),
    ensures
        page_wf(page_overwrite(d, k, t)),
        page_count(page_overwrite(d, k, t)) == page_count(d),
        page_room(page_overwrite(d, k, t)) == page_room(d),
        page_get(page_overwrite(d, k, t), k) == Some(
            t + page_get(d, k)->0.subrange(t.len() as int, page_get(d, k)->0.len() as int),
        ),
        forall|i: int| i != k ==> #[trigger] page_get(page_overwrite(d, k, t), i) == page_get(d, i),
        header_of(page_overwrite(d, k, t)) == header_of(d),
{
    let e = page_overwrite(d, k, t);
    let s = slot_of(d, slot_at(k));
    let h = header_of(d);
    assert(slot_at(h.num_slots as int) <= s.offset);
    assert(header_of(e) == header_of(d));
    assert forall|i: int| 0 <= i < page_count(d) implies #[trigger] slot_of(e, slot_at(i))
        == slot_of(d, slot_at(i)) by {
        lemma_slot_frame(d, e, i);
    }
    let old_t = d.subrange(s.offset as int, s.offset + s.length);
    assert(e.subrange(s.offset as int, s.offset + s.length) =~= t + old_t.subrange(
        t.len() as int,
        old_t.len() as int,
    ));
    assert forall|i: int| i != k implies #[trigger] page_get(e, i) == page_get(d, i) by {
        if 0 <= i < page_count(d) {
            let o = slot_of(d, slot_at(i));
            assert(slot_of(e, slot_at(i)) == o);
            assert(i < k ==> s.offset + s.length <= o.offset);
            assert(k < i ==> o.offset + o.length <= s.offset);
            assert(e.subrange(o.offset as int, o.offset + o.length) =~= d.subrange(
                o.offset as int,
                o.offset + o.length,
            ));
        }
    }
}

/// Embedding the checksum makes the page valid and changes nothing but the checksum.
pub proof fn law_seal(d: Seq<u8>)
    requires
        d.len() == PAGE_SIZE,
    ensures
        page_valid(page_sealed(d)),
        page_body(page_sealed(d)) == page_body(d),
        page_sealed(d).len() == PAGE_SIZE,
{
    assert(page_body(page_sealed(d)) =~= page_body(d));
    lemma_un32(page_sealed(d), 8, crc32_of(page_body(d)));
}

/// Pages with the same body have the same bytes outside the checksum field.
proof fn lemma_body_bytes(d: Seq<u8>, e: Seq<u8>)
    requires
        d.len() == PAGE_SIZE,
        e.len() == PAGE_SIZE,
        page_body(d) == page_body(e),
    ensures
        forall|k: int| 0 <= k < PAGE_SIZE && (k < 8 || 12 <= k) ==> #[trigger] d[k] == e[k],
        header_of(e) == (PageHeader { checksum: header_of(e).checksum, ..header_of(d) }),
{
    assert forall|k: int| 0 <= k < PAGE_SIZE && (k < 8 || 12 <= k) implies #[trigger] d[k]
        == e[k] by {
        assert(page_body(d)[k] == d[k]);
        assert(page_body(e)[k] == e[k]);
    }
}

/// Two pages that differ in their checksum fields only have the same slots and the same room, and
/// read alike if they are well formed.
pub proof fn law_body_reads(d: Seq<u8>, e: Seq<u8>)
    requires
        d.len() == PAGE_SIZE,
        e.len() == PAGE_SIZE,
        page_body(d) == page_body(e),
    ensures
        page_count(d) == page_count(e),
        page_room(d) == page_room(e),
        page_wf(d) ==> forall|i: int| #[trigger] page_get(d, i) == page_get(e, i),
        forall|i: int| #[trigger] page_live(d, i) == page_live(e, i),
        forall|i: int| #[trigger] page_has(d, i) == page_has(e, i),
        forall|i: int, len: nat| #[trigger] page_takes(d, i, len) == page_takes(e, i, len),
        forall|len: nat| #[trigger] page_fits(d, len) == page_fits(e, len),
{
    lemma_body_bytes(d, e);
    assert forall|i: int| #[trigger] page_live(d, i) == page_live(e, i) by {
        if 0 <= i && slot_at(i) + 5 <= PAGE_SIZE {
            lemma_slot_frame(d, e, i);
        }
    }
    assert forall|i: int| #[trigger] page_has(d, i) == page_has(e, i) by {
        assert(page_live(d, i) == page_live(e, i));
        if page_live(d, i) {
            lemma_slot_frame(d, e, i);
        }
    }
    assert forall|i: int, len: nat| #[trigger] page_takes(d, i, len) == page_takes(e, i, len) by {
        assert(page_live(d, i) == page_live(e, i));
        if page_live(d, i) {
            lemma_slot_frame(d, e, i);
        }
    }
    assert forall|i: int| page_wf(d) implies #[trigger] page_get(d, i) == page_get(e, i) by {
        assert(page_has(d, i) == page_has(e, i));
        if page_has(d, i) {
            lemma_slot_frame(d, e, i);
            let s = slot_of(d, slot_at(i));
            assert(d.subrange(s.offset as int, s.offset + s.length) =~= e.subrange(
                s.offset as int,
                s.offset + s.length,
            ));
        }
    }
}

/// Two pages that differ in their checksum fields only are well formed alike.
pub proof fn law_body_wf(d: Seq<u8>, e: Seq<u8>)
    requires
        d.len() == PAGE_SIZE,
        e.len() == PAGE_SIZE,
        page_body(d) == page_body(e),
        page_wf(d),
    ensures
        page_wf(e),
{
    lemma_body_bytes(d, e);
    assert forall|i: int| 0 <= i < page_count(e) implies #[trigger] slot_of(e, slot_at(i))
        == slot_of(d, slot_at(i)) by {
        lemma_slot_frame(d, e, i);
    }
}

/// An insertion into two pages that differ in their checksum fields only leaves two such pages.
pub proof fn law_body_insert(d: Seq<u8>, e: Seq<u8>, t: Seq<u8>)
    requires
        d.len() == PAGE_SIZE,
        e.len() == PAGE_SIZE,
        page_body(d) == page_body(e),
        page_fits(d, t.len()),
    ensures
        page_body(page_put(d, t)) == page_body(page_put(e, t)),
{
    lemma_body_bytes(d, e);
    let h = header_of(d);
    assert forall|k: int| 0 <= k < PAGE_SIZE implies page_body(page_put(d, t))[k] == page_body(
        page_put(e, t),
    )[k] by {
        if k < 8 || 12 <= k {
            assert(d[k] == e[k]);
        }
    }
    assert(page_body(page_put(d, t)) =~= page_body(page_put(e, t)));
}

/// A deletion in two pages that differ in their checksum fields only leaves two such pages.
pub proof fn law_body_delete(d: Seq<u8>, e: Seq<u8>, i: int)
    requires
        d.len() == PAGE_SIZE,
        e.len() == PAGE_SIZE,
        page_body(d) == page_body(e),
        page_live(d, i),
    ensures
        page_body(page_drop(d, i)) == page_body(page_drop(e, i)),
{
    lemma_body_bytes(d, e);
    lemma_slot_frame(d, e, i);
    assert(page_body(page_drop(d, i)) =~= page_body(page_drop(e, i)));
}

/// An update in two pages that differ in their checksum fields only leaves two such pages.
pub proof fn law_body_update(d: Seq<u8>, e: Seq<u8>, i: int, t: Seq<u8>)
    requires
        d.len() == PAGE_SIZE,
        e.len() == PAGE_SIZE,
        page_body(d) == page_body(e),
        page_takes(d, i, t.len()),
    ensures
        page_body(page_overwrite(d, i, t)) == page_body(page_overwrite(e, i, t)),
{
    lemma_body_bytes(d, e);
    lemma_slot_frame(d, e, i);
    assert(page_body(page_overwrite(d, i, t)) =~= page_body(page_overwrite(e, i, t)));
}

} // verus!
