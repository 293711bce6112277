//! The buffer pool: a fixed number of frames that cache pages of the database file.
use crate::buffer::frame::{empty_frame, Frame, FrameView};
use crate::buffer::lru_replacer::{lemma_without, without, LruReplacer};
use crate::storage::disk_manager::{
    disk_grew, disk_read, disk_write, file_view, law_write_grows, lemma_disk_grew, DiskManager,
    DiskView,
};
use crate::storage::error::StorageError;
use crate::storage::page::{
    law_seal, page_blank, page_body, page_sealed, page_valid, PAGE_SIZE, Page, PageView,
};
use std::collections::HashMap;
use vstd::prelude::*;

verus! {

broadcast use vstd::std_specs::hash::group_hash_axioms;

/// The mathematical counterpart of `BufferPool`.
#[verifier::ext_equal]
pub struct PoolView {
    pub frames: Seq<FrameView>,
    /// The frame of each cached page.
    pub table: Map<u32, usize>,
    /// The evictable frames, the next victim first.
    pub order: Seq<usize>,
    pub disk: DiskView,
    pub hits: u64,
    pub misses: u64,
}

/// One more, up to the largest number.
pub open spec fn bump(n: u64) -> u64 {
    if n < u64::MAX {
        (n + 1) as u64
    } else {
        n
    }
}

/// The first empty frame from position `i` on.
pub open spec fn first_empty(frames: Seq<FrameView>, i: int) -> Option<int>
    decreases frames.len() - i,
{
    if i < 0 || i >= frames.len() {
        None
    } else if frames[i].page is None {
        Some(i)
    } else {
        first_empty(frames, i + 1)
    }
}

/// The pool after the next victim left its frame; a dirty page is written first.
pub open spec fn pool_evict(p: PoolView) -> PoolView {
    let v = p.order[0] as int;
    let f = p.frames[v];
    let page = f.page->0;
    PoolView {
        frames: p.frames.update(v, empty_frame()),
        table: p.table.remove(page.id),
        order: p.order.subrange(1, p.order.len() as int),
        disk: if f.dirty {
            disk_write(p.disk, page.id, page.data)
        } else {
            p.disk
        },
        ..p
    }
}

/// The pool with a frame to use: an empty one, or the one of the next victim.
pub open spec fn pool_free(p: PoolView) -> Result<(PoolView, usize), StorageError> {
    match first_empty(p.frames, 0) {
        Some(i) => Ok((p, i as usize)),
        None => if p.order.len() == 0 {
            Err(StorageError::PoolFull)
        } else {
            Ok((pool_evict(p), p.order[0]))
        },
    }
}

/// The pool after a page was put into frame `i` and pinned.
pub open spec fn pool_load(p: PoolView, i: usize, page: PageView, dirty: bool) -> PoolView {
    PoolView {
        frames: p.frames.update(i as int, FrameView { page: Some(page), pins: 1, dirty }),
        table: p.table.insert(page.id, i),
        order: without(p.order, i),
        ..p
    }
}

/// Allocating a page: the pool afterwards, and the page with its frame.
pub open spec fn pool_new(p: PoolView) -> (PoolView, Result<(u32, usize), StorageError>) {
    match pool_free(p) {
        Err(e) => (p, Err(e)),
        Ok((q, i)) => {
            let id = q.disk.num_pages;
            let r = PoolView {
                disk: DiskView { num_pages: (id + 1) as u32, ..q.disk },
                ..q
            };
            (
                pool_load(r, i, PageView { id, data: page_blank(id), dirty: true }, true),
                Ok((id, i)),
            )
        },
    }
}

/// Fetching a page: the pool afterwards, and the frame of the page.
pub open spec fn pool_fetch(p: PoolView, id: u32) -> (PoolView, Result<usize, StorageError>) {
    if p.table.contains_key(id) {
        let i = p.table[id];
        let f = p.frames[i as int];
        (
            PoolView {
                frames: p.frames.update(i as int, FrameView { pins: (f.pins + 1) as u32, ..f }),
                order: without(p.order, i),
                hits: bump(p.hits),
                ..p
            },
            Ok(i),
        )
    } else {
        let m = PoolView { misses: bump(p.misses), ..p };
        match pool_free(m) {
            Err(e) => (m, Err(e)),
            Ok((q, i)) => match disk_read(q.disk, id) {
                Err(e) => (q, Err(e)),
                Ok(data) => (
                    pool_load(q, i, PageView { id, data, dirty: false }, false),
                    Ok(i),
                ),
            },
        }
    }
}

/// The pool after a pin on frame `i` was given back.
pub open spec fn pool_unpin(p: PoolView, i: usize, dirty: bool) -> PoolView {
    let f = p.frames[i as int];
    if f.pins == 0 {
        p
    } else {
        PoolView {
            frames: p.frames.update(
                i as int,
                FrameView { pins: (f.pins - 1) as u32, dirty: f.dirty || dirty, ..f },
            ),
            order: if f.pins == 1 && !p.order.contains(i) {
                p.order.push(i)
            } else {
                p.order
            },
            ..p
        }
    }
}

/// The pool after the page in frame `i` was written, if it was dirty.
pub open spec fn pool_flush_frame(p: PoolView, i: int) -> PoolView {
    let f = p.frames[i];
    match f.page {
        Some(page) => if f.dirty {
            PoolView {
                frames: p.frames.update(
                    i,
                    FrameView {
                        page: Some(PageView { data: page_sealed(page.data), ..page }),
                        dirty: false,
                        ..f
                    },
                ),
                disk: disk_write(p.disk, page.id, page.data),
                ..p
            }
        } else {
            p
        },
        None => p,
    }
}

/// The pool after page `id` was written, if it was cached and dirty.
pub open spec fn pool_flush(p: PoolView, id: u32) -> PoolView {
    if p.table.contains_key(id) {
        pool_flush_frame(p, p.table[id] as int)
    } else {
        p
    }
}

/// The pool after the dirty pages of the first `n` frames were written.
pub open spec fn pool_flush_upto(p: PoolView, n: nat) -> PoolView
    decreases n,
{
    if n == 0 {
        p
    } else {
        pool_flush_frame(pool_flush_upto(p, (n - 1) as nat), n - 1)
    }
}

/// The pool after the page in frame `i` became `page`.
pub open spec fn pool_set(p: PoolView, i: int, page: PageView) -> PoolView {
    PoolView { frames: p.frames.update(i, FrameView { page: Some(page), ..p.frames[i] }), ..p }
}

/// Frame `i`, if it holds a page and is not dirty, holds what the file holds.
pub open spec fn frame_clean(p: PoolView, i: int) -> bool {
    match p.frames[i].page {
        Some(page) => !p.frames[i].dirty ==> {
            &&& page.id < p.disk.file.len()
            &&& page_valid(p.disk.file[page.id as int])
            &&& page_body(p.disk.file[page.id as int]) == page_body(page.data)
        },
        None => true,
    }
}

/// How frames, page table, eviction order and file belong together: the table leads to exactly the
/// frames that hold a page; the evictable frames are exactly those that hold a page and are not
/// pinned; a frame that is neither pinned nor dirty holds what the file holds; every allocated page
/// is cached or in the file.
pub open spec fn pool_wf(p: PoolView) -> bool {
    &&& p.frames.len() <= usize::MAX
    &&& forall|id: u32| #[trigger]
        p.table.contains_key(id) ==> {
            let i = p.table[id] as int;
            &&& i < p.frames.len()
            &&& p.frames[i].page is Some
            &&& (p.frames[i].page->0).id == id
            &&& id < p.disk.num_pages
        }
    &&& forall|i: int|
        0 <= i < p.frames.len() ==> match (#[trigger] p.frames[i]).page {
            Some(page) => {
                &&& p.table.contains_key(page.id)
                &&& p.table[page.id] == i
                &&& page.data.len() == PAGE_SIZE
            },
            None => p.frames[i].pins == 0 && !p.frames[i].dirty,
        }
    &&& p.order.no_duplicates()
    &&& forall|i: usize| #[trigger]
        p.order.contains(i) <==> i < p.frames.len() && p.frames[i as int].page is Some
            && p.frames[i as int].pins == 0
    &&& forall|i: int|
        0 <= i < p.frames.len() && p.frames[i].pins == 0 ==> #[trigger] frame_clean(p, i)
    &&& p.disk.file.len() <= p.disk.num_pages
    &&& forall|id: u32|
        id < p.disk.num_pages ==> #[trigger] p.table.contains_key(id) || id < p.disk.file.len()
    &&& forall|i: int| 0 <= i < p.disk.file.len() ==> (#[trigger] p.disk.file[i]).len() == PAGE_SIZE
}

/// What reading page `id` through the pool gives, the checksum aside.
pub open spec fn pool_page(p: PoolView, id: u32) -> Result<Seq<u8>, StorageError> {
    if p.table.contains_key(id) {
        Ok(page_body((p.frames[p.table[id] as int].page->0).data))
    } else {
        match disk_read(p.disk, id) {
            Ok(d) => Ok(page_body(d)),
            Err(e) => Err(e),
        }
    }
}

/// What reading each page through the pool gives.
pub open spec fn pool_contents(p: PoolView) -> Map<u32, Result<Seq<u8>, StorageError>> {
    Map::new(|id: u32| true, |id: u32| pool_page(p, id))
}

/// No frame is pinned.
pub open spec fn pool_idle(p: PoolView) -> bool {
    forall|i: int| 0 <= i < p.frames.len() ==> (#[trigger] p.frames[i]).pins == 0
}

/// The buffer pool keeps a fixed number of frames in memory. A requested page that is cached is
/// returned directly; otherwise it is loaded from the file into a free or evicted frame. A pinned
/// page is never evicted; always unpin when done.
pub struct BufferPool {
    frames: Vec<Frame>,
    page_table: HashMap<u32, usize>,
    replacer: LruReplacer,
    disk: DiskManager,
    pub hits: u64,
    pub misses: u64,
}

pub open spec fn frames_view(s: Seq<Frame>) -> Seq<FrameView> {
    Seq::new(s.len(), |i: int| s[i]@)
}

impl View for BufferPool {
    type V = PoolView;

    closed spec fn view(&self) -> PoolView {
        PoolView {
            frames: frames_view(self.frames@),
            table: self.page_table@,
            order: self.replacer@,
            disk: self.disk@,
            hits: self.hits,
            misses: self.misses,
        }
    }
}

impl BufferPool {
    /// The pool is well formed.
    pub open spec fn wf(&self) -> bool {
        pool_wf(self@)
    }

    /// A pool of `pool_size` empty frames on the whole pages of a database file.
    pub fn new(pool_size: usize, file: Vec<[u8; PAGE_SIZE]>) -> (pool: Self)
        requires
            file@.len() <= u32::MAX,
        ensures
            pool.wf(),
            pool@.frames == Seq::new(pool_size as nat, |i: int| empty_frame()),
            pool@.table == Map::<u32, usize>::empty(),
            pool@.order == Seq::<usize>::empty(),
            pool@.disk == (DiskView {
                file: file_view(file@),
                num_pages: file@.len() as u32,
                written: Seq::empty(),
            }),
            pool@.hits == 0,
            pool@.misses == 0,
    {
        let mut frames: Vec<Frame> = Vec::new();
        let mut i: usize = 0;
        while i < pool_size
            invariant
                i <= pool_size,
                frames@.len() == i,
                forall|k: int| 0 <= k < i ==> (#[trigger] frames@[k])@ == empty_frame(),
            decreases pool_size - i,
        {
            frames.push(Frame::new());
            i = i + 1;
        }
        let pool = Self {
            frames,
            page_table: HashMap::new(),
            replacer: LruReplacer::new(pool_size),
            disk: DiskManager::new(file),
            hits: 0,
            misses: 0,
        };
        proof {
            assert(pool@.frames =~= Seq::new(pool_size as nat, |i: int| empty_frame()));
            assert(pool@.table =~= Map::empty());
            assert(pool@.disk.written =~= Seq::empty());
            assert forall|i: int| 0 <= i < pool@.disk.file.len() implies (
            #[trigger] pool@.disk.file[i]).len() == PAGE_SIZE by {}
        }
        pool
    }

    /// Finds a frame to use: an empty one, or that of the least recently used page that is not
    /// pinned. A dirty victim is written first.
    fn find_free_frame(&mut self) -> (res: Result<usize, StorageError>)
        requires
            old(self).wf(),
        ensures
            final(self).wf(),
            match res {
                Ok(i) => pool_free(old(self)@) == Ok::<(PoolView, usize), StorageError>(
                    (final(self)@, i),
                ),
                Err(e) => pool_free(old(self)@) == Err::<(PoolView, usize), StorageError>(e)
                    && final(self)@ == old(self)@,
            },
    {
        let ghost p = self@;
        let mut i: usize = 0;
        while i < self.frames.len()
            invariant
                i <= self.frames@.len(),
                self@ == p,
                self.wf(),
                first_empty(p.frames, 0) == first_empty(p.frames, i as int),
            decreases self.frames@.len() - i,
        {
            assert(p.frames[i as int] == self.frames@[i as int]@);
            if self.frames[i].is_empty() {
                return Ok(i);
            }
            i = i + 1;
        }
        match self.replacer.evict() {
            None => {
                assert(self@ == p);
                Err(StorageError::PoolFull)
            },
            Some(victim) => {
                proof {
                    lemma_evict(p);
                    assert(p.frames[victim as int] == self.frames@[victim as int]@);
                }
                let mut old_id: u32 = 0;
                let dirty = self.frames[victim].is_dirty;
                if let Some(page) = &mut self.frames[victim].page {
                    old_id = page.id;
                    if dirty {
                        self.disk.write_page(page);
                    }
                }
                self.page_table.remove(&old_id);
                self.frames.set(victim, Frame::new());
                proof {
                    assert(self@.frames =~= pool_evict(p).frames);
                    assert(self@ =~= pool_evict(p));
                }
                Ok(victim)
            },
        }
    }

    /// Allocates a new page and returns its id and its frame, pinned. Fails if every frame is
    /// pinned.
    pub fn new_page(&mut self) -> (res: Result<(u32, usize), StorageError>)
        requires
            old(self).wf(),
            old(self)@.disk.num_pages < u32::MAX,
        ensures
            final(self).wf(),
            final(self)@ == pool_new(old(self)@).0,
            res == pool_new(old(self)@).1,
    {
        let ghost p = self@;
        proof {
            lemma_free(p);
            law_new_page(p);
        }
        match self.find_free_frame() {
            Err(e) => Err(e),
            Ok(frame_id) => {
                let ghost r = self@;
                let page_id: u32 = self.disk.allocate_page();
                let page = Page::new(page_id);
                self.frames.set(
                    frame_id,
                    Frame { page: Some(page), pin_count: 1, is_dirty: true },
                );
                self.page_table.insert(page_id, frame_id);
                self.replacer.pin(frame_id);
                proof {
                    assert(self@.frames =~= pool_new(p).0.frames);
                    assert(self@ =~= pool_new(p).0);
                }
                Ok((page_id, frame_id))
            },
        }
    }

    /// Brings a page into the pool, or finds it there, and returns its frame, pinned once more.
    pub fn fetch_page(&mut self, page_id: u32) -> (res: Result<usize, StorageError>)
        requires
            old(self).wf(),
            old(self)@.table.contains_key(page_id) ==> old(
                self,
            )@.frames[old(self)@.table[page_id] as int].pins < u32::MAX,
        ensures
            final(self).wf(),
            final(self)@ == pool_fetch(old(self)@, page_id).0,
            res == pool_fetch(old(self)@, page_id).1,
    {
        let ghost p = self@;
        proof {
            law_fetch(p, page_id);
        }
        let cached: Option<usize> = match self.page_table.get(&page_id) {
            Some(i) => Some(*i),
            None => None,
        };
        if let Some(frame_id) = cached {
            assert(p.frames[frame_id as int] == self.frames@[frame_id as int]@);
            self.frames[frame_id].pin_count = self.frames[frame_id].pin_count + 1;
            self.replacer.pin(frame_id);
            if self.hits < u64::MAX {
                self.hits = self.hits + 1;
            }
            proof {
                assert(self@.frames =~= pool_fetch(p, page_id).0.frames);
                assert(self@ =~= pool_fetch(p, page_id).0);
            }
            return Ok(frame_id);
        }
        if self.misses < u64::MAX {
            self.misses = self.misses + 1;
        }
        proof {
            let m = PoolView { misses: bump(p.misses), ..p };
            assert(self@ == m);
            assert forall|k: int| 0 <= k < m.frames.len() && m.frames[k].pins
                == 0 implies #[trigger] frame_clean(m, k) by {
                assert(frame_clean(p, k));
            }
            lemma_free(m);
        }
        match self.find_free_frame() {
            Err(e) => Err(e),
            Ok(frame_id) => {
                match self.disk.read_page(page_id) {
                    Err(e) => Err(e),
                    Ok(page) => {
                        self.frames.set(
                            frame_id,
                            Frame { page: Some(page), pin_count: 1, is_dirty: false },
                        );
                        self.page_table.insert(page_id, frame_id);
                        self.replacer.pin(frame_id);
                        proof {
                            assert(self@.frames =~= pool_fetch(p, page_id).0.frames);
                            assert(self@ =~= pool_fetch(p, page_id).0);
                        }
                        Ok(frame_id)
                    },
                }
            },
        }
    }

    /// The page in a frame.
    pub fn get_page(&self, frame_id: usize) -> (res: Option<&Page>)
        requires
            self.wf(),
            frame_id < self@.frames.len(),
        ensures
            match res {
                Some(page) => self@.frames[frame_id as int].page == Some(page@),
                None => self@.frames[frame_id as int].page is None,
            },
    {
        self.frames[frame_id].page.as_ref()
    }

    /// The page in a frame, to be changed. The frame has to be unpinned as dirty afterwards.
    pub fn get_page_mut(&mut self, frame_id: usize) -> (res: Option<&mut Page>)
        requires
            old(self).wf(),
            frame_id < old(self)@.frames.len(),
            old(self)@.frames[frame_id as int].pins > 0,
        ensures
            res is Some ==> old(self)@.frames[frame_id as int].page == Some((res->0)@),
            res is Some ==> final(self)@ == pool_set(
                old(self)@,
                frame_id as int,
                final(res->0)@,
            ),
            res is None ==> old(self)@.frames[frame_id as int].page is None,
            res is None ==> final(self)@ == old(self)@,
    {
        proof {
            let p = self@;
            let fs = self.frames@;
            let i = frame_id as int;
            assert(p.frames[i] == fs[i]@);
            assert forall|f: Frame|
                frames_view(#[trigger] fs.update(i, f)) == frames_view(fs).update(i, f@) by {
                assert(frames_view(fs.update(i, f)) =~= frames_view(fs).update(i, f@));
            }
        }
        match &mut self.frames[frame_id].page {
            Some(page) => Some(page),
            None => None,
        }
    }

    /// Gives a pin back. `is_dirty` has to be set if the page was changed.
    pub fn unpin(&mut self, frame_id: usize, is_dirty: bool)
        requires
            old(self).wf(),
            frame_id < old(self)@.frames.len(),
            old(self)@.frames[frame_id as int].pins == 1 ==> is_dirty || frame_clean(
                old(self)@,
                frame_id as int,
            ),
        ensures
            final(self).wf(),
            final(self)@ == pool_unpin(old(self)@, frame_id, is_dirty),
    {
        let ghost p = self@;
        proof {
            law_unpin(p, frame_id, is_dirty);
            assert(p.frames[frame_id as int] == self.frames@[frame_id as int]@);
        }
        if self.frames[frame_id].pin_count == 0 {
            return;
        }
        self.frames[frame_id].pin_count = self.frames[frame_id].pin_count - 1;
        if is_dirty {
            self.frames[frame_id].is_dirty = true;
        }
        if self.frames[frame_id].pin_count == 0 {
            self.replacer.unpin(frame_id);
        }
        proof {
            assert(self@.frames =~= pool_unpin(p, frame_id, is_dirty).frames);
            assert(self@ =~= pool_unpin(p, frame_id, is_dirty));
        }
    }

    /// Writes the page in a frame, if it is dirty.
    fn flush_frame(&mut self, frame_id: usize)
        requires
            old(self).wf(),
            frame_id < old(self)@.frames.len(),
        ensures
            final(self).wf(),
            final(self)@ == pool_flush_frame(old(self)@, frame_id as int),
    {
        let ghost p = self@;
        proof {
            law_flush(p, frame_id as int);
            assert(p.frames[frame_id as int] == self.frames@[frame_id as int]@);
        }
        if !self.frames[frame_id].is_dirty {
            return;
        }
        if let Some(page) = &mut self.frames[frame_id].page {
            self.disk.write_page(page);
        }
        self.frames[frame_id].is_dirty = false;
        proof {
            assert(self@.frames =~= pool_flush_frame(p, frame_id as int).frames);
            assert(self@ =~= pool_flush_frame(p, frame_id as int));
        }
    }

    /// Writes a page to the file now, if it is cached and dirty.
    pub fn flush_page(&mut self, page_id: u32)
        requires
            old(self).wf(),
        ensures
            final(self).wf(),
            final(self)@ == pool_flush(old(self)@, page_id),
    {
        let cached: Option<usize> = match self.page_table.get(&page_id) {
            Some(i) => Some(*i),
            None => None,
        };
        if let Some(frame_id) = cached {
            self.flush_frame(frame_id);
        }
    }

    /// Writes all dirty pages to the file.
    pub fn flush_all(&mut self)
        requires
            old(self).wf(),
        ensures
            final(self).wf(),
            final(self)@ == pool_flush_upto(old(self)@, old(self)@.frames.len()),
    {
        let ghost p = self@;
        let n: usize = self.frames.len();
        let mut i: usize = 0;
        while i < n
            invariant
                i <= n,
                n == p.frames.len(),
                self@.frames.len() == n,
                self.wf(),
                pool_wf(p),
                self@ == pool_flush_upto(p, i as nat),
            decreases n - i,
        {
            proof {
                law_flush(self@, i as int);
            }
            self.flush_frame(i);
            i = i + 1;
        }
    }

    pub fn pool_size(&self) -> (n: usize)
        ensures
            n == self@.frames.len(),
    {
        self.frames.len()
    }

    /// Tells whether a page is cached.
    pub fn is_cached(&self, page_id: u32) -> (b: bool)
        ensures
            b == self@.table.contains_key(page_id),
    {
        self.page_table.contains_key(&page_id)
    }

    /// How many fetches found their page cached.
    pub fn hit_count(&self) -> (n: u64)
        ensures
            n == self@.hits,
    {
        self.hits
    }

    /// How many fetches had to read the file.
    pub fn miss_count(&self) -> (n: u64)
        ensures
            n == self@.misses,
    {
        self.misses
    }

    /// How many pages have been allocated.
    pub fn num_pages(&self) -> (n: u32)
        ensures
            n == self@.disk.num_pages,
    {
        self.disk.num_pages()
    }

    /// The pages of the database file.
    pub fn file_pages(&self) -> (pages: &Vec<[u8; PAGE_SIZE]>)
        ensures
            file_view(pages@) == self@.disk.file,
    {
        self.disk.file_pages()
    }

    /// Takes the list of pages written to the file since it was last taken.
    pub fn take_written(&mut self) -> (ids: Vec<u32>)
        requires
            old(self).wf(),
        ensures
            final(self).wf(),
            ids@ == old(self)@.disk.written,
            final(self)@ == (PoolView {
                disk: DiskView { written: Seq::empty(), ..old(self)@.disk },
                ..old(self)@
            }),
    {
        let ghost p = self@;
        let ids = self.disk.take_written();
        proof {
            assert forall|k: int| 0 <= k < self@.frames.len() && self@.frames[k].pins
                == 0 implies #[trigger] frame_clean(self@, k) by {
                assert(frame_clean(p, k));
            }
        }
        ids
    }
}

proof fn lemma_first_empty(frames: Seq<FrameView>, i: int)
    requires
        0 <= i,
    ensures
        match first_empty(frames, i) {
            Some(k) => i <= k < frames.len() && frames[k].page is None,
            None => forall|k: int| i <= k < frames.len() ==> (#[trigger] frames[k]).page is Some,
        },
    decreases frames.len() - i,
{
    if i < frames.len() && frames[i].page is Some {
        lemma_first_empty(frames, i + 1);
    }
}

/// Writing a cached page keeps what the other pages hold.
proof fn lemma_write_frame(p: PoolView, id: u32, data: Seq<u8>, other: u32)
    requires
        pool_wf(p),
        p.table.contains_key(id),
        data.len() == PAGE_SIZE,
        other != id,
    ensures
        !p.table.contains_key(other) ==> disk_read(disk_write(p.disk, id, data), other)
            == disk_read(p.disk, other),
        other < p.disk.file.len() ==> disk_write(p.disk, id, data).file[other as int]
            == p.disk.file[other as int],
        disk_write(p.disk, id, data).file.len() <= p.disk.num_pages,
        disk_write(p.disk, id, data).file.len() >= p.disk.file.len(),
{
    let e = disk_write(p.disk, id, data);
    if !p.table.contains_key(other) && other >= p.disk.file.len() {
        assert(other >= p.disk.num_pages);
        assert(e.file.len() <= p.disk.num_pages);
    }
}

proof fn lemma_write_self(p: PoolView, id: u32, data: Seq<u8>)
    requires
        data.len() == PAGE_SIZE,
    ensures
        disk_read(disk_write(p.disk, id, data), id) == Ok::<Seq<u8>, StorageError>(
            page_sealed(data),
        ),
        page_body(page_sealed(data)) == page_body(data),
        page_valid(page_sealed(data)),
        page_sealed(data).len() == PAGE_SIZE,
        id < disk_write(p.disk, id, data).file.len(),
        disk_write(p.disk, id, data).file[id as int] == page_sealed(data),
{
    law_seal(data);
}

/// The pages of the file keep their size when a page is written.
proof fn lemma_file_sizes(d: DiskView, id: u32, data: Seq<u8>)
    requires
        data.len() == PAGE_SIZE,
        forall|i: int| 0 <= i < d.file.len() ==> (#[trigger] d.file[i]).len() == PAGE_SIZE,
    ensures
        forall|i: int|
            0 <= i < disk_write(d, id, data).file.len() ==> (#[trigger] disk_write(
                d,
                id,
                data,
            ).file[i]).len() == PAGE_SIZE,
{
    law_seal(data);
}

/// Evicting keeps the pool well formed, and keeps what every page holds.
proof fn lemma_evict(p: PoolView)
    requires
        pool_wf(p),
        p.order.len() > 0,
    ensures
        pool_wf(pool_evict(p)),
        p.order[0] < p.frames.len(),
        pool_evict(p).frames[p.order[0] as int].page is None,
        pool_evict(p).frames.len() == p.frames.len(),
        p.frames[p.order[0] as int].pins == 0,
        p.frames[p.order[0] as int].page is Some,
        !pool_evict(p).order.contains(p.order[0]),
        pool_evict(p).disk.num_pages == p.disk.num_pages,
{
    let v = p.order[0];
    let q = pool_evict(p);
    assert(p.order.contains(v)) by {
        assert(p.order[0] == v);
    }
    let page = p.frames[v as int].page->0;
    assert(p.frames[v as int].page is Some);
    assert(p.table.contains_key(page.id) && p.table[page.id] == v);
    assert(page.data.len() == PAGE_SIZE);
    lemma_file_sizes(p.disk, page.id, page.data);
    assert(page.id < p.disk.num_pages);
    assert forall|id: u32| #[trigger] q.table.contains_key(id) implies {
        let i = q.table[id] as int;
        &&& i < q.frames.len()
        &&& q.frames[i].page is Some
        &&& (q.frames[i].page->0).id == id
        &&& id < q.disk.num_pages
    } by {
        assert(p.table.contains_key(id));
        assert(p.table[id] != v);
    }
    assert forall|i: int| 0 <= i < q.frames.len() implies match (#[trigger] q.frames[i]).page {
        Some(pg) => {
            &&& q.table.contains_key(pg.id)
            &&& q.table[pg.id] == i
            &&& pg.data.len() == PAGE_SIZE
        },
        None => q.frames[i].pins == 0 && !q.frames[i].dirty,
    } by {
        if i != v {
            assert(q.frames[i] == p.frames[i]);
        }
    }
    assert(q.order.no_duplicates()) by {
        assert forall|i: int, j: int|
            0 <= i < q.order.len() && 0 <= j < q.order.len() && i != j implies q.order[i]
            != q.order[j] by {
            assert(p.order[i + 1] != p.order[j + 1]);
        }
    }
    assert forall|i: usize| #[trigger]
        q.order.contains(i) <==> i < q.frames.len() && q.frames[i as int].page is Some
            && q.frames[i as int].pins == 0 by {
        if q.order.contains(i) {
            let k = choose|k: int| 0 <= k < q.order.len() && q.order[k] == i;
            assert(p.order[k + 1] == i);
            assert(p.order.contains(i));
            assert(p.order[k + 1] != p.order[0]);
        }
        if i < q.frames.len() && q.frames[i as int].page is Some && q.frames[i as int].pins == 0 {
            assert(i != v);
            assert(p.order.contains(i));
            let k = choose|k: int| 0 <= k < p.order.len() && p.order[k] == i;
            assert(q.order[k - 1] == i);
        }
    }
    assert(frame_clean(p, v as int));
    assert forall|id: u32| id < q.disk.num_pages implies #[trigger] q.table.contains_key(id) || id
        < q.disk.file.len() by {
        assert(p.table.contains_key(id) || id < p.disk.file.len());
    }
    assert forall|i: int| 0 <= i < q.frames.len() && q.frames[i].pins == 0 implies #[trigger] frame_clean(
        q,
        i,
    ) by {
        if i != v {
            assert(q.frames[i] == p.frames[i]);
            assert(frame_clean(p, i));
            match q.frames[i].page {
                Some(pg) => {
                    assert(p.table[pg.id] == i);
                    lemma_write_frame(p, page.id, page.data, pg.id);
                },
                None => {},
            }
        }
    }
}

/// Evicting keeps what every page holds.
proof fn lemma_evict_contents(p: PoolView)
    requires
        pool_wf(p),
        p.order.len() > 0,
    ensures
        pool_contents(pool_evict(p)) == pool_contents(p),
{
    let v = p.order[0];
    let q = pool_evict(p);
    lemma_evict(p);
    let page = p.frames[v as int].page->0;
    assert(p.table.contains_key(page.id) && p.table[page.id] == v);
    assert(frame_clean(p, v as int));
    lemma_write_self(p, page.id, page.data);
    assert forall|id: u32| pool_page(q, id) == pool_page(p, id) by {
        if id != page.id {
            lemma_write_frame(p, page.id, page.data, id);
            if p.table.contains_key(id) {
                assert(p.table[id] != v);
            }
        }
    }
    assert(pool_contents(q) =~= pool_contents(p));
}

/// Finding a frame keeps the pool well formed and keeps what every page holds.
proof fn lemma_free(p: PoolView)
    requires
        pool_wf(p),
    ensures
        match pool_free(p) {
            Ok((q, i)) => {
                &&& pool_wf(q)
                &&& i < q.frames.len()
                &&& q.frames[i as int].page is None
                &&& q.frames.len() == p.frames.len()
                &&& pool_contents(q) == pool_contents(p)
                &&& q.disk.num_pages == p.disk.num_pages
                &&& forall|k: int| 0 <= k < p.frames.len() && k != i ==> #[trigger] q.frames[k] == p.frames[k]
                &&& p.frames[i as int].pins == 0
                &&& !q.order.contains(i)
                &&& forall|id: u32| #[trigger] q.table.contains_key(id) ==> p.table.contains_key(id)
            },
            Err(e) => e == StorageError::PoolFull && forall|k: int|
                0 <= k < p.frames.len() ==> (#[trigger] p.frames[k]).pins > 0,
        },
{
    lemma_first_empty(p.frames, 0);
    match first_empty(p.frames, 0) {
        Some(i) => {
            assert(p.frames[i].page is None);
            assert(!p.order.contains(i as usize));
        },
        None => {
            if p.order.len() > 0 {
                lemma_evict(p);
                lemma_evict_contents(p);
            } else {
                assert forall|k: int| 0 <= k < p.frames.len() implies (#[trigger] p.frames[k]).pins
                    > 0 by {
                    if p.frames[k].pins == 0 {
                        assert(p.order.contains(k as usize));
                    }
                }
            }
        },
    }
}

/// Putting a page that is not cached into an empty frame.
proof fn lemma_load(p: PoolView, i: usize, page: PageView, dirty: bool)
    requires
        pool_wf(p),
        i < p.frames.len(),
        p.frames[i as int].page is None,
        !p.table.contains_key(page.id),
        page.id < p.disk.num_pages,
        page.data.len() == PAGE_SIZE,
    ensures
        pool_wf(pool_load(p, i, page, dirty)),
        forall|id: u32|
            id != page.id ==> #[trigger] pool_page(pool_load(p, i, page, dirty), id) == pool_page(
                p,
                id,
            ),
        pool_page(pool_load(p, i, page, dirty), page.id) == Ok::<Seq<u8>, StorageError>(
            page_body(page.data),
        ),
{
    let q = pool_load(p, i, page, dirty);
    lemma_without(p.order, i);
    assert(!p.order.contains(i));
    assert forall|k: int| 0 <= k < q.frames.len() implies match (#[trigger] q.frames[k]).page {
        Some(pg) => {
            &&& q.table.contains_key(pg.id)
            &&& q.table[pg.id] == k
            &&& pg.data.len() == PAGE_SIZE
        },
        None => q.frames[k].pins == 0 && !q.frames[k].dirty,
    } by {
        if k != i {
            assert(q.frames[k] == p.frames[k]);
        }
    }
    assert forall|k: int| 0 <= k < q.frames.len() && q.frames[k].pins == 0 implies #[trigger] frame_clean(
        q,
        k,
    ) by {
        assert(k != i);
        assert(q.frames[k] == p.frames[k]);
        assert(frame_clean(p, k));
    }
    assert forall|k: usize| #[trigger]
        q.order.contains(k) <==> k < q.frames.len() && q.frames[k as int].page is Some
            && q.frames[k as int].pins == 0 by {
        assert(p.order.contains(k) <==> k < p.frames.len() && p.frames[k as int].page is Some
            && p.frames[k as int].pins == 0);
    }
    assert forall|id: u32| id != page.id implies #[trigger] pool_page(q, id) == pool_page(
        p,
        id,
    ) by {
        if p.table.contains_key(id) {
            assert(p.table[id] != i);
        }
    }
}

/// What fetching a page does: a page that can be read is found in a frame, pinned once more,
/// unless every frame is pinned; no page changes.
pub proof fn law_fetch(p: PoolView, id: u32)
    requires
        pool_wf(p),
        p.table.contains_key(id) ==> p.frames[p.table[id] as int].pins < u32::MAX,
    ensures
        ({
            let (q, res) = pool_fetch(p, id);
            &&& pool_wf(q)
            &&& pool_contents(q) == pool_contents(p)
            &&& q.frames.len() == p.frames.len()
            &&& q.disk.num_pages == p.disk.num_pages
            &&& match res {
                Ok(i) => {
                    &&& i < q.frames.len()
                    &&& q.frames[i as int].page is Some
                    &&& (q.frames[i as int].page->0).id == id
                    &&& pool_page(p, id) == Ok::<Seq<u8>, StorageError>(
                        page_body((q.frames[i as int].page->0).data),
                    )
                    &&& (q.frames[i as int].page->0).data.len() == PAGE_SIZE
                    &&& q.frames[i as int].pins == p.frames[i as int].pins + 1
                    &&& q.table.contains_key(id)
                    &&& q.table[id] == i
                    &&& forall|k: int|
                        0 <= k < p.frames.len() && k != i ==> (#[trigger] q.frames[k])
                            == p.frames[k]
                    &&& p.frames[i as int].pins == 0 ==> frame_clean(q, i as int)
                    &&& q.frames[i as int].dirty ==> p.frames[i as int] == (FrameView {
                        pins: p.frames[i as int].pins,
                        ..q.frames[i as int]
                    })
                },
                Err(e) => {
                    &&& !p.table.contains_key(id)
                    &&& e == StorageError::PoolFull ==> forall|k: int|
                        0 <= k < p.frames.len() ==> (#[trigger] p.frames[k]).pins > 0
                    &&& e != StorageError::PoolFull ==> pool_page(p, id) == Err::<
                        Seq<u8>,
                        StorageError,
                    >(e)
                    &&& forall|k: int|
                        0 <= k < p.frames.len() ==> (#[trigger] q.frames[k]).pins
                            == p.frames[k].pins
                },
            }
        }),
{
    let (q, res) = pool_fetch(p, id);
    if p.table.contains_key(id) {
        let i = p.table[id];
        lemma_without(p.order, i);
        let f = p.frames[i as int];
        if f.pins == 0 {
            assert(frame_clean(p, i as int));
        }
        assert forall|k: int| 0 <= k < q.frames.len() && q.frames[k].pins
            == 0 implies #[trigger] frame_clean(q, k) by {
            assert(q.frames[k] == p.frames[k]);
            assert(frame_clean(p, k));
        }
        assert forall|k: int| 0 <= k < q.frames.len() implies match (#[trigger] q.frames[k]).page {
            Some(pg) => {
                &&& q.table.contains_key(pg.id)
                &&& q.table[pg.id] == k
                &&& pg.data.len() == PAGE_SIZE
            },
            None => q.frames[k].pins == 0 && !q.frames[k].dirty,
        } by {
            assert(p.frames[k].page == q.frames[k].page);
        }
        assert forall|k: usize| #[trigger]
            q.order.contains(k) <==> k < q.frames.len() && q.frames[k as int].page is Some
                && q.frames[k as int].pins == 0 by {
            assert(p.order.contains(k) <==> k < p.frames.len() && p.frames[k as int].page is Some
                && p.frames[k as int].pins == 0);
        }
        assert(pool_wf(q));
        assert(pool_contents(q) =~= pool_contents(p)) by {
            assert forall|o: u32| pool_page(q, o) == pool_page(p, o) by {}
        }
    } else {
        let m = PoolView { misses: bump(p.misses), ..p };
        assert(pool_wf(m)) by {
            assert forall|k: int| 0 <= k < m.frames.len() && m.frames[k].pins
                == 0 implies #[trigger] frame_clean(m, k) by {
                assert(frame_clean(p, k));
            }
        }
        assert(pool_contents(m) =~= pool_contents(p)) by {
            assert forall|o: u32| pool_page(m, o) == pool_page(p, o) by {}
        }
        lemma_free(m);
        match pool_free(m) {
            Err(e) => {},
            Ok((r, i)) => {
                assert(!r.table.contains_key(id));
                assert(pool_contents(r)[id] == pool_contents(p)[id]);
                lemma_free_read(m, id);
                match disk_read(r.disk, id) {
                    Err(e) => {
                        assert forall|k: int| 0 <= k < p.frames.len() implies (
                        #[trigger] q.frames[k]).pins == p.frames[k].pins by {
                            if k != i {
                                assert(r.frames[k] == m.frames[k]);
                            }
                        }
                    },
                    Ok(data) => {
                        let page = PageView { id, data, dirty: false };
                        assert(r.disk.file[id as int].len() == PAGE_SIZE);
                        lemma_load(r, i, page, false);
                        assert(pool_contents(q) =~= pool_contents(r)) by {
                            assert forall|o: u32| pool_page(q, o) == pool_page(r, o) by {}
                        }
                    },
                }
            },
        }
    }
}

/// Finding a frame does not change what the file holds of a page that is not cached.
proof fn lemma_free_read(p: PoolView, id: u32)
    requires
        pool_wf(p),
        !p.table.contains_key(id),
    ensures
        match pool_free(p) {
            Ok((q, _)) => disk_read(q.disk, id) == disk_read(p.disk, id),
            Err(_) => true,
        },
{
    lemma_first_empty(p.frames, 0);
    if first_empty(p.frames, 0) is None && p.order.len() > 0 {
        lemma_evict(p);
        let page = p.frames[p.order[0] as int].page->0;
        assert(p.table.contains_key(page.id));
        lemma_write_frame(p, page.id, page.data, id);
    }
}

/// What allocating a page does: the page with the next id is blank, cached and pinned, and no other
/// page changes. It fails only if every frame is pinned.
pub proof fn law_new_page(p: PoolView)
    requires
        pool_wf(p),
        p.disk.num_pages < u32::MAX,
    ensures
        ({
            let (q, res) = pool_new(p);
            &&& pool_wf(q)
            &&& q.frames.len() == p.frames.len()
            &&& match res {
                Ok((id, i)) => {
                    &&& id == p.disk.num_pages
                    &&& pool_page(p, id) is Err
                    &&& q.disk.num_pages == id + 1
                    &&& pool_contents(q) == pool_contents(p).insert(
                        id,
                        Ok(page_body(page_blank(id))),
                    )
                    &&& i < q.frames.len()
                    &&& q.frames[i as int].page == Some(
                        PageView { id, data: page_blank(id), dirty: true },
                    )
                    &&& q.frames[i as int].pins == 1
                    &&& q.frames[i as int].dirty
                    &&& q.table.contains_key(id)
                    &&& q.table[id] == i
                    &&& forall|k: int|
                        0 <= k < p.frames.len() && k != i ==> (#[trigger] q.frames[k])
                            == p.frames[k]
                    &&& p.frames[i as int].pins == 0
                },
                Err(e) => q == p && e == StorageError::PoolFull && forall|k: int|
                    0 <= k < p.frames.len() ==> (#[trigger] p.frames[k]).pins > 0,
            }
        }),
{
    lemma_free(p);
    match pool_free(p) {
        Err(e) => {},
        Ok((r, i)) => {
            let id = r.disk.num_pages;
            let r2 = PoolView { disk: DiskView { num_pages: (id + 1) as u32, ..r.disk }, ..r };
            let page = PageView { id, data: page_blank(id), dirty: true };
            // The page is not well formed as "cached or in the file" until it is loaded.
            lemma_new_load(r, i);
            let (q, _) = pool_new(p);
            assert(pool_contents(q) =~= pool_contents(r).insert(
                id,
                Ok(page_body(page_blank(id))),
            )) by {
                assert forall|o: u32| o != id implies pool_page(q, o) == pool_page(r, o) by {}
            }
            assert(pool_page(p, id) is Err) by {
                if p.table.contains_key(id) {
                    assert(id < p.disk.num_pages);
                }
            }
        },
    }
}

/// Loading a fresh page into an empty frame.
proof fn lemma_new_load(p: PoolView, i: usize)
    requires
        pool_wf(p),
        i < p.frames.len(),
        p.frames[i as int].page is None,
        p.disk.num_pages < u32::MAX,
    ensures
        ({
            let id = p.disk.num_pages;
            let r = PoolView { disk: DiskView { num_pages: (id + 1) as u32, ..p.disk }, ..p };
            let q = pool_load(r, i, PageView { id, data: page_blank(id), dirty: true }, true);
            &&& pool_wf(q)
            &&& pool_page(q, id) == Ok::<Seq<u8>, StorageError>(page_body(page_blank(id)))
            &&& forall|o: u32| o != id ==> #[trigger] pool_page(q, o) == pool_page(p, o)
        }),
{
    let id = p.disk.num_pages;
    let r = PoolView { disk: DiskView { num_pages: (id + 1) as u32, ..p.disk }, ..p };
    let page = PageView { id, data: page_blank(id), dirty: true };
    let q = pool_load(r, i, page, true);
    assert(!p.table.contains_key(id));
    lemma_without(p.order, i);
    assert(!p.order.contains(i));
    assert forall|k: int| 0 <= k < q.frames.len() implies match (#[trigger] q.frames[k]).page {
        Some(pg) => {
            &&& q.table.contains_key(pg.id)
            &&& q.table[pg.id] == k
            &&& pg.data.len() == PAGE_SIZE
        },
        None => q.frames[k].pins == 0 && !q.frames[k].dirty,
    } by {
        if k != i {
            assert(q.frames[k] == p.frames[k]);
        }
    }
    assert forall|k: int| 0 <= k < q.frames.len() && q.frames[k].pins == 0 implies #[trigger] frame_clean(
        q,
        k,
    ) by {
        assert(k != i);
        assert(q.frames[k] == p.frames[k]);
        assert(frame_clean(p, k));
    }
    assert forall|k: usize| #[trigger]
        q.order.contains(k) <==> k < q.frames.len() && q.frames[k as int].page is Some
            && q.frames[k as int].pins == 0 by {
        assert(p.order.contains(k) <==> k < p.frames.len() && p.frames[k as int].page is Some
            && p.frames[k as int].pins == 0);
    }
    assert forall|o: u32| o < q.disk.num_pages implies #[trigger] q.table.contains_key(o) || o
        < q.disk.file.len() by {
        if o != id {
            assert(p.table.contains_key(o) || o < p.disk.file.len());
        }
    }
    assert forall|o: u32| o != id implies #[trigger] pool_page(q, o) == pool_page(p, o) by {
        if p.table.contains_key(o) {
            assert(p.table[o] != i);
        }
    }
}

/// Giving a pin back keeps the pool well formed and changes no page.
pub proof fn law_unpin(p: PoolView, i: usize, dirty: bool)
    requires
        pool_wf(p),
        i < p.frames.len(),
        p.frames[i as int].pins == 1 ==> dirty || frame_clean(p, i as int),
    ensures
        pool_wf(pool_unpin(p, i, dirty)),
        pool_contents(pool_unpin(p, i, dirty)) == pool_contents(p),
{
    let q = pool_unpin(p, i, dirty);
    let f = p.frames[i as int];
    if f.pins > 0 {
        assert forall|k: int| 0 <= k < q.frames.len() implies match (#[trigger] q.frames[k]).page {
            Some(pg) => {
                &&& q.table.contains_key(pg.id)
                &&& q.table[pg.id] == k
                &&& pg.data.len() == PAGE_SIZE
            },
            None => q.frames[k].pins == 0 && !q.frames[k].dirty,
        } by {
            assert(p.frames[k].page == q.frames[k].page);
        }
        assert forall|k: int| 0 <= k < q.frames.len() && q.frames[k].pins
            == 0 implies #[trigger] frame_clean(q, k) by {
            if k != i {
                assert(q.frames[k] == p.frames[k]);
                assert(frame_clean(p, k));
            }
        }
        assert(!p.order.contains(i));
        assert(q.order.no_duplicates()) by {
            if f.pins == 1 {
                assert forall|a: int, b: int|
                    0 <= a < q.order.len() && 0 <= b < q.order.len() && a != b implies q.order[a]
                    != q.order[b] by {
                    if a < p.order.len() && b < p.order.len() {
                        assert(p.order[a] != p.order[b]);
                    } else if a < p.order.len() {
                        assert(p.order[a] != i);
                    } else {
                        assert(p.order[b] != i);
                    }
                }
            }
        }
        assert forall|k: usize| #[trigger]
            q.order.contains(k) <==> k < q.frames.len() && q.frames[k as int].page is Some
                && q.frames[k as int].pins == 0 by {
            assert(p.order.contains(k) <==> k < p.frames.len() && p.frames[k as int].page is Some
                && p.frames[k as int].pins == 0);
            if f.pins == 1 {
                if q.order.contains(k) && k != i {
                    let a = choose|a: int| 0 <= a < q.order.len() && q.order[a] == k;
                    assert(p.order[a] == k);
                }
                if p.order.contains(k) {
                    let a = choose|a: int| 0 <= a < p.order.len() && p.order[a] == k;
                    assert(q.order[a] == k);
                }
                assert(q.order[q.order.len() - 1] == i);
            }
        }
        assert(pool_contents(q) =~= pool_contents(p)) by {
            assert forall|o: u32| pool_page(q, o) == pool_page(p, o) by {}
        }
    } else {
        assert(q == p);
    }
}

/// Writing a cached page to the file keeps the pool well formed and changes no page.
pub proof fn law_flush(p: PoolView, i: int)
    requires
        pool_wf(p),
        0 <= i < p.frames.len(),
    ensures
        pool_wf(pool_flush_frame(p, i)),
        pool_contents(pool_flush_frame(p, i)) == pool_contents(p),
        pool_flush_frame(p, i).frames.len() == p.frames.len(),
        forall|k: int|
            0 <= k < p.frames.len() ==> (#[trigger] pool_flush_frame(p, i).frames[k]).pins
                == p.frames[k].pins,
        pool_flush_frame(p, i).disk.num_pages == p.disk.num_pages,
        pool_flush_frame(p, i).table == p.table,
        pool_flush_frame(p, i).order == p.order,
        !pool_flush_frame(p, i).frames[i].dirty,
{
    let q = pool_flush_frame(p, i);
    let f = p.frames[i];
    match f.page {
        None => {},
        Some(page) => {
            assert(p.table.contains_key(page.id) && p.table[page.id] == i);
            if f.dirty {
                lemma_write_self(p, page.id, page.data);
                lemma_file_sizes(p.disk, page.id, page.data);
                assert forall|k: int| 0 <= k < q.frames.len() implies match (
                #[trigger] q.frames[k]).page {
                    Some(pg) => {
                        &&& q.table.contains_key(pg.id)
                        &&& q.table[pg.id] == k
                        &&& pg.data.len() == PAGE_SIZE
                    },
                    None => q.frames[k].pins == 0 && !q.frames[k].dirty,
                } by {
                    if k != i {
                        assert(q.frames[k] == p.frames[k]);
                    }
                }
                assert forall|k: int| 0 <= k < q.frames.len() && q.frames[k].pins
                    == 0 implies #[trigger] frame_clean(q, k) by {
                    if k != i {
                        assert(q.frames[k] == p.frames[k]);
                        assert(frame_clean(p, k));
                        match q.frames[k].page {
                            Some(pg) => {
                                assert(p.table[pg.id] == k);
                                lemma_write_frame(p, page.id, page.data, pg.id);
                            },
                            None => {},
                        }
                    }
                }
                assert forall|k: usize| #[trigger]
                    q.order.contains(k) <==> k < q.frames.len() && q.frames[k as int].page is Some
                        && q.frames[k as int].pins == 0 by {
                    assert(p.order.contains(k) <==> k < p.frames.len()
                        && p.frames[k as int].page is Some && p.frames[k as int].pins == 0);
                }
                assert forall|o: u32| o < q.disk.num_pages implies #[trigger] q.table.contains_key(
                    o,
                ) || o < q.disk.file.len() by {
                    assert(p.table.contains_key(o) || o < p.disk.file.len());
                }
                assert(pool_contents(q) =~= pool_contents(p)) by {
                    assert forall|o: u32| pool_page(q, o) == pool_page(p, o) by {
                        if o != page.id {
                            lemma_write_frame(p, page.id, page.data, o);
                            if p.table.contains_key(o) {
                                assert(p.table[o] != i);
                            }
                        }
                    }
                }
            }
        },
    }
}

/// Writing all pages keeps the pool well formed and changes no page.
pub proof fn law_flush_all(p: PoolView, n: nat)
    requires
        pool_wf(p),
        n <= p.frames.len(),
    ensures
        pool_wf(pool_flush_upto(p, n)),
        pool_contents(pool_flush_upto(p, n)) == pool_contents(p),
        pool_flush_upto(p, n).frames.len() == p.frames.len(),
        forall|k: int|
            0 <= k < p.frames.len() ==> (#[trigger] pool_flush_upto(p, n).frames[k]).pins
                == p.frames[k].pins,
        pool_flush_upto(p, n).disk.num_pages == p.disk.num_pages,
        forall|k: int| 0 <= k < n ==> !(#[trigger] pool_flush_upto(p, n).frames[k]).dirty,
    decreases n,
{
    if n > 0 {
        law_flush_all(p, (n - 1) as nat);
        law_flush(pool_flush_upto(p, (n - 1) as nat), n - 1);
        let r = pool_flush_upto(p, (n - 1) as nat);
        assert forall|k: int| 0 <= k < p.frames.len() implies (#[trigger] pool_flush_upto(
            p,
            n,
        ).frames[k]).pins == p.frames[k].pins by {
            assert(r.frames[k].pins == p.frames[k].pins);
        }
        assert forall|k: int| 0 <= k < n implies !(#[trigger] pool_flush_upto(
            p,
            n,
        ).frames[k]).dirty by {
            if k < n - 1 {
                assert(!r.frames[k].dirty);
            }
        }
    }
}

/// Changing the page in a pinned frame changes what that page holds, and no other.
pub proof fn law_set(p: PoolView, i: int, page: PageView)
    requires
        pool_wf(p),
        0 <= i < p.frames.len(),
        p.frames[i].page is Some,
        p.frames[i].pins > 0,
        page.id == (p.frames[i].page->0).id,
        page.data.len() == PAGE_SIZE,
    ensures
        pool_wf(pool_set(p, i, page)),
        pool_contents(pool_set(p, i, page)) == pool_contents(p).insert(
            page.id,
            Ok(page_body(page.data)),
        ),
{
    let q = pool_set(p, i, page);
    assert(p.table.contains_key(page.id) && p.table[page.id] == i);
    assert forall|k: int| 0 <= k < q.frames.len() implies match (#[trigger] q.frames[k]).page {
        Some(pg) => {
            &&& q.table.contains_key(pg.id)
            &&& q.table[pg.id] == k
            &&& pg.data.len() == PAGE_SIZE
        },
        None => q.frames[k].pins == 0 && !q.frames[k].dirty,
    } by {
        if k != i {
            assert(q.frames[k] == p.frames[k]);
        }
    }
    assert forall|k: int| 0 <= k < q.frames.len() && q.frames[k].pins == 0 implies #[trigger] frame_clean(
        q,
        k,
    ) by {
        assert(k != i);
        assert(q.frames[k] == p.frames[k]);
        assert(frame_clean(p, k));
    }
    assert forall|k: usize| #[trigger]
        q.order.contains(k) <==> k < q.frames.len() && q.frames[k as int].page is Some
            && q.frames[k as int].pins == 0 by {
        assert(p.order.contains(k) <==> k < p.frames.len() && p.frames[k as int].page is Some
            && p.frames[k as int].pins == 0);
    }
    assert(pool_contents(q) =~= pool_contents(p).insert(page.id, Ok(page_body(page.data)))) by {
        assert forall|o: u32| o != page.id implies pool_page(q, o) == pool_page(p, o) by {
            if p.table.contains_key(o) {
                assert(p.table[o] != i);
            }
        }
    }
}

/// Fetching and allocating pages take no page from the file.
pub proof fn law_file_grows(p: PoolView, id: u32)
    requires
        pool_wf(p),
    ensures
        disk_grew(p.disk, pool_fetch(p, id).0.disk),
        disk_grew(p.disk, pool_new(p).0.disk),
{
    if p.order.len() > 0 {
        let i = p.order[0];
        assert(p.order.contains(i));
        let page = p.frames[i as int].page->0;
        law_write_grows(p.disk, page.id, page.data);
    }
}

/// Writing a page takes no page from the file; a page that is cached is in the file afterwards.
pub proof fn law_flushed_page_is_on_file(p: PoolView, id: u32)
    requires
        pool_wf(p),
        pool_idle(p),
    ensures
        disk_grew(p.disk, pool_flush(p, id).disk),
        p.table.contains_key(id) ==> id < pool_flush(p, id).disk.file.len() && page_valid(
            pool_flush(p, id).disk.file[id as int],
        ),
{
    if p.table.contains_key(id) {
        let i = p.table[id] as int;
        let page = p.frames[i].page->0;
        law_write_grows(p.disk, page.id, page.data);
        assert(p.frames[i].pins == 0);
        assert(frame_clean(p, i));
    }
}

/// Writing all pages takes no page from the file.
pub proof fn law_flush_all_grows(p: PoolView, n: nat)
    requires
        pool_wf(p),
        n <= p.frames.len(),
    ensures
        disk_grew(p.disk, pool_flush_upto(p, n).disk),
    decreases n,
{
    if n > 0 {
        law_flush_all_grows(p, (n - 1) as nat);
        law_flush_all(p, (n - 1) as nat);
        let q = pool_flush_upto(p, (n - 1) as nat);
        if let Some(page) = q.frames[n - 1].page {
            law_write_grows(q.disk, page.id, page.data);
        }
        lemma_disk_grew(p.disk, q.disk, pool_flush_upto(p, n).disk);
    }
}

/// Every dirty frame holds one of the pages `ids`.
pub open spec fn dirty_within(p: PoolView, ids: Seq<u32>) -> bool {
    forall|i: int|
        0 <= i < p.frames.len() && (#[trigger] p.frames[i]).dirty && p.frames[i].page is Some
            ==> ids.contains((p.frames[i].page->0).id)
}

/// Fetching a page of a pool without pins, changing it and giving the pin back: the page holds what
/// it was changed to, no other page changes, and no pin is left. If the page cannot be read,
/// nothing changes.
pub proof fn law_visit(p: PoolView, id: u32, page: PageView, dirty: bool, ids: Seq<u32>)
    requires
        pool_wf(p),
        pool_idle(p),
        p.frames.len() > 0,
    ensures
        ({
            let (q, res) = pool_fetch(p, id);
            match res {
                Err(e) => {
                    &&& pool_wf(q)
                    &&& pool_idle(q)
                    &&& q.frames.len() == p.frames.len()
                    &&& q.disk.num_pages == p.disk.num_pages
                    &&& pool_contents(q) == pool_contents(p)
                    &&& pool_page(p, id) == Err::<Seq<u8>, StorageError>(e)
                    &&& dirty_within(p, ids) ==> dirty_within(q, ids)
                },
                Ok(i) => {
                    let old_page = q.frames[i as int].page->0;
                    let r = pool_set(q, i as int, page);
                    let s = pool_unpin(r, i, dirty);
                    &&& pool_wf(q)
                    &&& i < q.frames.len()
                    &&& q.frames[i as int].pins == 1
                    &&& q.frames[i as int].page is Some
                    &&& old_page.id == id
                    &&& old_page.data.len() == PAGE_SIZE
                    &&& pool_page(p, id) == Ok::<Seq<u8>, StorageError>(page_body(old_page.data))
                    &&& q.frames.len() == p.frames.len()
                    &&& q.disk.num_pages == p.disk.num_pages
                    &&& page.id == id && page.data.len() == PAGE_SIZE && (dirty || page == old_page)
                        ==> {
                        &&& pool_wf(r)
                        &&& r.frames[i as int].pins == 1
                        &&& dirty || frame_clean(r, i as int)
                        &&& pool_wf(s)
                        &&& pool_idle(s)
                        &&& s.frames.len() == p.frames.len()
                        &&& s.disk.num_pages == p.disk.num_pages
                        &&& pool_contents(s) == pool_contents(p).insert(
                            id,
                            Ok(page_body(page.data)),
                        )
                        &&& dirty_within(p, ids) ==> dirty_within(
                            s,
                            if dirty {
                                ids.push(id)
                            } else {
                                ids
                            },
                        )
                    }
                },
            }
        }),
{
    assert(p.table.contains_key(id) ==> p.frames[p.table[id] as int].pins == 0);
    law_fetch(p, id);
    let (q, res) = pool_fetch(p, id);
    match res {
        Err(e) => {
            assert(p.frames[0].pins == 0);
            assert(e != StorageError::PoolFull);
            assert forall|k: int| 0 <= k < q.frames.len() implies (#[trigger] q.frames[k]).pins == 0 by {
                assert(p.frames[k].pins == 0);
            }
            if dirty_within(p, ids) {
                lemma_fetch_dirty(p, id, ids);
            }
        },
        Ok(i) => {
            let old_page = q.frames[i as int].page->0;
            assert(p.frames[i as int].pins == 0);
            if page.id == id && page.data.len() == PAGE_SIZE && (dirty || page == old_page) {
                let r = pool_set(q, i as int, page);
                law_set(q, i as int, page);
                if !dirty {
                    assert(r.frames[i as int] == q.frames[i as int]);
                    assert(frame_clean(r, i as int));
                }
                law_unpin(r, i, dirty);
                let s = pool_unpin(r, i, dirty);
                assert forall|k: int| 0 <= k < s.frames.len() implies (#[trigger] s.frames[k]).pins
                    == 0 by {
                    if k != i {
                        assert(q.frames[k] == p.frames[k]);
                    }
                }
                assert(pool_contents(q) == pool_contents(p));
                if dirty_within(p, ids) {
                    let more = if dirty {
                        ids.push(id)
                    } else {
                        ids
                    };
                    assert forall|k: int|
                        0 <= k < s.frames.len() && (#[trigger] s.frames[k]).dirty
                            && s.frames[k].page is Some implies more.contains(
                        (s.frames[k].page->0).id,
                    ) by {
                        if k != i {
                            assert(s.frames[k] == p.frames[k]);
                            let pid = (p.frames[k].page->0).id;
                            assert(ids.contains(pid));
                            let x = choose|x: int| 0 <= x < ids.len() && ids[x] == pid;
                            assert(more[x] == pid);
                        } else if dirty {
                            assert(more[more.len() - 1] == id);
                        } else {
                            assert(q.frames[i as int].dirty);
                            assert(p.frames[i as int].dirty);
                        }
                    }
                }
            }
        },
    }
}

/// Fetching a page of a pool without pins and giving the pin back unchanged: no page changes, and
/// no pin is left.
pub proof fn law_look(p: PoolView, id: u32, ids: Seq<u32>)
    requires
        pool_wf(p),
        pool_idle(p),
        p.frames.len() > 0,
    ensures
        ({
            let (q, res) = pool_fetch(p, id);
            match res {
                Err(e) => {
                    &&& pool_wf(q)
                    &&& pool_idle(q)
                    &&& q.frames.len() == p.frames.len()
                    &&& q.disk.num_pages == p.disk.num_pages
                    &&& pool_contents(q) == pool_contents(p)
                    &&& pool_contents(p)[id] == Err::<Seq<u8>, StorageError>(e)
                    &&& dirty_within(p, ids) ==> dirty_within(q, ids)
                },
                Ok(i) => {
                    let page = q.frames[i as int].page->0;
                    let s = pool_unpin(q, i, false);
                    &&& pool_wf(q)
                    &&& i < q.frames.len()
                    &&& q.frames[i as int].pins == 1
                    &&& q.frames[i as int].page is Some
                    &&& page.id == id
                    &&& page.data.len() == PAGE_SIZE
                    &&& pool_contents(p)[id] == Ok::<Seq<u8>, StorageError>(page_body(page.data))
                    &&& frame_clean(q, i as int)
                    &&& pool_wf(s)
                    &&& pool_idle(s)
                    &&& s.frames.len() == p.frames.len()
                    &&& s.disk.num_pages == p.disk.num_pages
                    &&& pool_contents(s) == pool_contents(p)
                    &&& dirty_within(p, ids) ==> dirty_within(s, ids)
                },
            }
        }),
{
    let (q, res) = pool_fetch(p, id);
    match res {
        Err(e) => {
            law_visit(p, id, arbitrary(), false, ids);
            assert(pool_contents(p)[id] == pool_page(p, id));
        },
        Ok(i) => {
            let page = q.frames[i as int].page->0;
            law_visit(p, id, page, false, ids);
            let r = pool_set(q, i as int, page);
            assert(r.frames =~= q.frames);
            assert(r == q);
            let s = pool_unpin(q, i, false);
            assert(pool_contents(p)[id] == pool_page(p, id));
            assert(pool_contents(s) =~= pool_contents(p));
        },
    }
}

/// Allocating a page in a pool without pins, changing it and giving the pin back: the page with the
/// next id holds what it was changed to, no other page changes, and no pin is left.
pub proof fn law_visit_new(p: PoolView, page: PageView, ids: Seq<u32>)
    requires
        pool_wf(p),
        pool_idle(p),
        p.frames.len() > 0,
        p.disk.num_pages < u32::MAX,
    ensures
        ({
            let (q, res) = pool_new(p);
            let (id, i) = res->Ok_0;
            let r = pool_set(q, i as int, page);
            let s = pool_unpin(r, i, true);
            &&& res is Ok
            &&& id == p.disk.num_pages
            &&& pool_wf(q)
            &&& i < q.frames.len()
            &&& q.frames[i as int].pins == 1
            &&& q.frames[i as int].page == Some(
                PageView { id, data: page_blank(id), dirty: true },
            )
            &&& page.id == id && page.data.len() == PAGE_SIZE ==> {
                &&& pool_wf(r)
                &&& r.frames[i as int].pins == 1
                &&& pool_wf(s)
                &&& pool_idle(s)
                &&& s.frames.len() == p.frames.len()
                &&& s.disk.num_pages == id + 1
                &&& pool_contents(s) == pool_contents(p).insert(id, Ok(page_body(page.data)))
                &&& dirty_within(p, ids) ==> dirty_within(s, ids.push(id))
            }
        }),
{
    law_new_page(p);
    let (q, res) = pool_new(p);
    assert(p.frames[0].pins == 0);
    let (id, i) = res->Ok_0;
    if page.id == id && page.data.len() == PAGE_SIZE {
        let r = pool_set(q, i as int, page);
        law_set(q, i as int, page);
        law_unpin(r, i, true);
        let s = pool_unpin(r, i, true);
        assert forall|k: int| 0 <= k < s.frames.len() implies (#[trigger] s.frames[k]).pins == 0 by {
            if k != i {
                assert(q.frames[k] == p.frames[k]);
            }
        }
        assert(pool_contents(s) =~= pool_contents(p).insert(id, Ok(page_body(page.data))));
        if dirty_within(p, ids) {
            let more = ids.push(id);
            assert forall|k: int|
                0 <= k < s.frames.len() && (#[trigger] s.frames[k]).dirty
                    && s.frames[k].page is Some implies more.contains((s.frames[k].page->0).id) by {
                if k != i {
                    assert(s.frames[k] == p.frames[k]);
                    let pid = (p.frames[k].page->0).id;
                    assert(ids.contains(pid));
                    let x = choose|x: int| 0 <= x < ids.len() && ids[x] == pid;
                    assert(more[x] == pid);
                } else {
                    assert(more[more.len() - 1] == id);
                }
            }
        }
    }
}

proof fn lemma_fetch_dirty(p: PoolView, id: u32, ids: Seq<u32>)
    requires
        pool_wf(p),
        dirty_within(p, ids),
        pool_fetch(p, id).1 is Err,
    ensures
        dirty_within(pool_fetch(p, id).0, ids),
{
    let (q, res) = pool_fetch(p, id);
    let m = PoolView { misses: bump(p.misses), ..p };
    assert(pool_wf(m)) by {
        assert forall|k: int| 0 <= k < m.frames.len() && m.frames[k].pins
            == 0 implies #[trigger] frame_clean(m, k) by {
            assert(frame_clean(p, k));
        }
    }
    lemma_free(m);
    assert forall|k: int|
        0 <= k < q.frames.len() && (#[trigger] q.frames[k]).dirty
            && q.frames[k].page is Some implies ids.contains((q.frames[k].page->0).id) by {
        assert(q.frames[k] == p.frames[k]);
    }
}

/// Writing a page makes it the first of the listed pages that is not dirty any more.
pub proof fn law_flush_listed(p: PoolView, ids: Seq<u32>)
    requires
        pool_wf(p),
        ids.len() > 0,
        dirty_within(p, ids),
    ensures
        dirty_within(pool_flush(p, ids[0]), ids.skip(1)),
        pool_wf(pool_flush(p, ids[0])),
        pool_contents(pool_flush(p, ids[0])) == pool_contents(p),
        pool_idle(p) ==> pool_idle(pool_flush(p, ids[0])),
        pool_flush(p, ids[0]).frames.len() == p.frames.len(),
        pool_flush(p, ids[0]).disk.num_pages == p.disk.num_pages,
{
    let id = ids[0];
    let q = pool_flush(p, id);
    if p.table.contains_key(id) {
        law_flush(p, p.table[id] as int);
    }
    if pool_idle(p) {
        assert forall|k: int| 0 <= k < q.frames.len() implies (#[trigger] q.frames[k]).pins == 0 by {
            assert(p.frames[k].pins == 0);
        }
    }
    assert forall|k: int|
        0 <= k < q.frames.len() && (#[trigger] q.frames[k]).dirty && q.frames[k].page is Some implies ids.skip(
    1).contains((q.frames[k].page->0).id) by {
        let pid = (q.frames[k].page->0).id;
        assert(q.frames[k] == p.frames[k]);
        assert(ids.contains(pid));
        let x = choose|x: int| 0 <= x < ids.len() && ids[x] == pid;
        assert(x != 0) by {
            if x == 0 {
                assert(p.table.contains_key(pid));
                assert(p.table[pid] == k);
            }
        }
        assert(ids.skip(1)[x - 1] == pid);
    }
}

/// Pages read through the pool have the size of a page and no checksum.
pub proof fn lemma_contents_sized(p: PoolView)
    requires
        pool_wf(p),
    ensures
        forall|id: u32| #[trigger] pool_contents(p).contains_key(id),
        forall|id: u32|
            (#[trigger] pool_contents(p)[id]) matches Ok(d) ==> d.len() == PAGE_SIZE && page_body(d)
                == d,
{
    assert forall|id: u32| (#[trigger] pool_contents(p)[id]) is Ok implies pool_contents(
        p,
    )[id]->Ok_0.len() == PAGE_SIZE && page_body(pool_contents(p)[id]->Ok_0) == pool_contents(
        p,
    )[id]->Ok_0 by {
        let raw = if p.table.contains_key(id) {
            (p.frames[p.table[id] as int].page->0).data
        } else {
            p.disk.file[id as int]
        };
        let d = page_body(raw);
        assert(pool_contents(p)[id] == Ok::<Seq<u8>, StorageError>(d));
        assert(page_body(d) =~= d);
    }
}

/// A page that is pinned is not evicted: fetching and allocating pages leave it in its frame.
pub proof fn law_pinned_pages_stay(p: PoolView, id: u32, k: int)
    requires
        pool_wf(p),
        0 <= k < p.frames.len(),
        p.frames[k].pins > 0,
    ensures
        pool_fetch(p, id).0.frames[k].page == p.frames[k].page,
        pool_new(p).0.frames[k].page == p.frames[k].page,
{
    let m = PoolView { misses: bump(p.misses), ..p };
    if p.order.len() > 0 {
        lemma_evict(p);
    }
    lemma_first_empty(p.frames, 0);
    if let Some(i) = first_empty(p.frames, 0) {
        assert(p.frames[i].pins == 0);
    }
}

} // verus!
