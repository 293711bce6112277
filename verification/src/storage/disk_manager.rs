//! The database file as a sequence of pages.
use crate::storage::error::StorageError;
use crate::storage::page::{
    law_seal, page_body, page_sealed, page_valid, PAGE_SIZE, Page, PageView,
};
use vstd::prelude::*;

verus! {

/// The bytes of pages.
pub open spec fn file_view(pages: Seq<[u8; PAGE_SIZE]>) -> Seq<Seq<u8>> {
    Seq::new(pages.len(), |i: int| pages[i]@)
}

/// The bytes of a page of zeroes.
pub open spec fn zero_page() -> Seq<u8> {
    Seq::new(PAGE_SIZE as nat, |i: int| 0u8)
}

/// The mathematical counterpart of `DiskManager`.
#[verifier::ext_equal]
pub struct DiskView {
    /// The pages of the file.
    pub file: Seq<Seq<u8>>,
    pub num_pages: u32,
    /// The pages written since the list was last taken.
    pub written: Seq<u32>,
}

/// The file after page `id` was written; what lies between its old end and the page is zero.
pub open spec fn file_put(file: Seq<Seq<u8>>, id: u32, data: Seq<u8>) -> Seq<Seq<u8>> {
    Seq::new(
        if id < file.len() {
            file.len()
        } else {
            (id + 1) as nat
        },
        |i: int|
            if i == id {
                data
            } else if i < file.len() {
                file[i]
            } else {
                zero_page()
            },
    )
}

/// Writing a page.
pub open spec fn disk_write(d: DiskView, id: u32, data: Seq<u8>) -> DiskView {
    DiskView {
        file: file_put(d.file, id, page_sealed(data)),
        num_pages: d.num_pages,
        written: d.written.push(id),
    }
}

/// What reading page `id` gives.
pub open spec fn disk_read(d: DiskView, id: u32) -> Result<Seq<u8>, StorageError> {
    if id >= d.file.len() {
        Err(StorageError::PastEnd)
    } else if !page_valid(d.file[id as int]) {
        Err(StorageError::Checksum(id))
    } else {
        Ok(d.file[id as int])
    }
}

/// The bytes of page `id` of a file; past its end they count as zero.
pub open spec fn file_page(file: Seq<Seq<u8>>, id: u32) -> Seq<u8> {
    if id < file.len() {
        file[id as int]
    } else {
        zero_page()
    }
}

/// From `a` to `b` the file lost no page that can be read, and every page whose bytes changed is
/// listed as written.
pub open spec fn disk_grew(a: DiskView, b: DiskView) -> bool {
    &&& a.file.len() <= b.file.len()
    &&& forall|i: int|
        0 <= i < a.file.len() && page_valid(#[trigger] a.file[i]) ==> page_valid(b.file[i])
    &&& forall|id: u32| #[trigger] a.written.contains(id) ==> b.written.contains(id)
    &&& forall|id: u32|
        !(#[trigger] b.written.contains(id)) ==> file_page(b.file, id) == file_page(a.file, id)
}

/// Reads and writes pages of the database file, which is held in memory. Pages that were written
/// are listed until they are taken to be stored.
pub struct DiskManager {
    pages: Vec<[u8; PAGE_SIZE]>,
    num_pages: u32,
    written: Vec<u32>,
}

impl View for DiskManager {
    type V = DiskView;

    closed spec fn view(&self) -> DiskView {
        DiskView {
            file: file_view(self.pages@),
            num_pages: self.num_pages,
            written: self.written@,
        }
    }
}

impl DiskManager {
    /// Starts on the whole pages of a database file.
    pub fn new(pages: Vec<[u8; PAGE_SIZE]>) -> (d: Self)
        requires
            pages@.len() <= u32::MAX,
        ensures
            d@.file == file_view(pages@),
            d@.num_pages == pages@.len(),
            d@.written == Seq::<u32>::empty(),
    {
        let num_pages: u32 = pages.len() as u32;
        Self { pages, num_pages, written: Vec::new() }
    }

    /// Allocates a new page id. Nothing is written yet.
    pub fn allocate_page(&mut self) -> (id: u32)
        requires
            old(self)@.num_pages < u32::MAX,
        ensures
            id == old(self)@.num_pages,
            final(self)@ == (DiskView { num_pages: (id + 1) as u32, ..old(self)@ }),
    {
        let id: u32 = self.num_pages;
        self.num_pages = id + 1;
        id
    }

    /// Writes a page at its place in the file, with its checksum embedded.
    pub fn write_page(&mut self, page: &mut Page)
        requires
            old(page).id < u32::MAX,
        ensures
            final(self)@ == disk_write(old(self)@, old(page).id, old(page).data@),
            final(page)@ == (PageView { data: page_sealed(old(page).data@), ..old(page)@ }),
    {
        let ghost before = self@.file;
        page.finalize_checksum();
        let index: usize = page.id as usize;
        let zero: [u8; PAGE_SIZE] = [0u8;PAGE_SIZE];
        assert(zero@ =~= zero_page());
        while self.pages.len() <= index
            invariant
                index < u32::MAX,
                zero@ == zero_page(),
                before.len() <= self.pages@.len(),
                self.pages@.len() <= index + 1 || self.pages@.len() == before.len(),
                forall|i: int| 0 <= i < before.len() ==> (#[trigger] self.pages@[i])@ == before[i],
                forall|i: int|
                    before.len() <= i < self.pages@.len() ==> (#[trigger] self.pages@[i])@
                        == zero_page(),
                self.num_pages == old(self).num_pages,
                self.written == old(self).written,
            decreases index + 1 - self.pages@.len(),
        {
            self.pages.push(zero);
        }
        self.pages.set(index, page.data);
        self.written.push(page.id);
        assert(self@.file =~= file_put(before, page.id, page.data@));
    }

    /// Reads a page by its id.
    pub fn read_page(&self, page_id: u32) -> (res: Result<Page, StorageError>)
        ensures
            match res {
                Ok(page) => disk_read(self@, page_id) == Ok::<Seq<u8>, StorageError>(page.data@)
                    && page.id == page_id && !page.dirty,
                Err(e) => disk_read(self@, page_id) == Err::<Seq<u8>, StorageError>(e),
            },
    {
        let index: usize = page_id as usize;
        if index >= self.pages.len() {
            return Err(StorageError::PastEnd);
        }
        let page = Page::from_bytes(page_id, self.pages[index]);
        if !page.verify_checksum() {
            return Err(StorageError::Checksum(page_id));
        }
        Ok(page)
    }

    pub fn num_pages(&self) -> (n: u32)
        ensures
            n == self@.num_pages,
    {
        self.num_pages
    }

    /// The pages of the file.
    pub fn file_pages(&self) -> (pages: &Vec<[u8; PAGE_SIZE]>)
        ensures
            file_view(pages@) == self@.file,
    {
        &self.pages
    }

    /// Takes the list of pages written since it was last taken.
    pub fn take_written(&mut self) -> (ids: Vec<u32>)
        ensures
            ids@ == old(self)@.written,
            final(self)@ == (DiskView { written: Seq::empty(), ..old(self)@ }),
    {
        let mut ids: Vec<u32> = Vec::new();
        std::mem::swap(&mut ids, &mut self.written);
        ids
    }
}

/// Writing a page takes no page from the file and lists the page as written.
pub proof fn law_write_grows(d: DiskView, id: u32, data: Seq<u8>)
    requires
        data.len() == PAGE_SIZE,
    ensures
        disk_grew(d, disk_write(d, id, data)),
        id < disk_write(d, id, data).file.len(),
        page_valid(disk_write(d, id, data).file[id as int]),
{
    law_seal(data);
    let e = disk_write(d, id, data);
    assert(e.written[e.written.len() - 1] == id);
    assert forall|o: u32| #[trigger] d.written.contains(o) implies e.written.contains(o) by {
        let k = choose|k: int| 0 <= k < d.written.len() && d.written[k] == o;
        assert(e.written[k] == o);
    }
}

/// What holds from one state of a file to a second and from there to a third holds throughout.
pub proof fn lemma_disk_grew(a: DiskView, b: DiskView, c: DiskView)
    requires
        disk_grew(a, b),
        disk_grew(b, c),
    ensures
        disk_grew(a, c),
{
    assert forall|id: u32| !(#[trigger] c.written.contains(id)) implies file_page(c.file, id)
        == file_page(a.file, id) by {
        assert(!b.written.contains(id));
    }
}

/// A page that was written reads back, its contents unchanged; other pages that the file held read
/// back as before.
pub proof fn law_read_after_write(d: DiskView, id: u32, data: Seq<u8>, other: u32)
    requires
        data.len() == PAGE_SIZE,
    ensures
        disk_read(disk_write(d, id, data), id) == Ok::<Seq<u8>, StorageError>(page_sealed(data)),
        page_body(page_sealed(data)) == page_body(data),
        other != id && other < d.file.len() ==> disk_read(disk_write(d, id, data), other)
            == disk_read(d, other),
{
    law_seal(data);
}

} // verus!
