use venom_db::buffer::buffer_pool::BufferPool;
use venom_db::buffer::lru_replacer::LruReplacer;
use venom_db::storage::error::StorageError;

#[test]
fn pinned_pages_stay() {
    let mut pool = BufferPool::new(2, vec![]);
    let (a, fa) = pool.new_page().unwrap();
    let (b, fb) = pool.new_page().unwrap();
    assert!(matches!(pool.new_page(), Err(StorageError::PoolFull)));
    pool.unpin(fb, true);
    let (c, _) = pool.new_page().unwrap();
    assert!(pool.is_cached(a));
    assert!(!pool.is_cached(b));
    assert!(pool.is_cached(c));
    assert!(matches!(pool.fetch_page(b), Err(StorageError::PoolFull)));
    assert!(matches!(pool.fetch_page(99), Err(StorageError::PoolFull)));
    pool.unpin(fa, true);
    assert!(matches!(pool.fetch_page(99), Err(StorageError::PastEnd)));
    assert_eq!(pool.pool_size(), 2);
    assert_eq!(pool.num_pages(), 3);
}

#[test]
fn what_was_written_is_fetched_after_eviction() {
    let mut pool = BufferPool::new(1, vec![]);
    let (a, f) = pool.new_page().unwrap();
    pool.get_page_mut(f).unwrap().insert_tuple(b"kept");
    pool.unpin(f, true);
    let (_, f) = pool.new_page().unwrap();
    pool.unpin(f, false);
    let f = pool.fetch_page(a).unwrap();
    assert_eq!(pool.get_page(f).unwrap().get_tuple(0), Some(&b"kept"[..]));
    assert_eq!((pool.hit_count(), pool.miss_count()), (0, 1));
    pool.unpin(f, false);
    pool.fetch_page(a).unwrap();
    assert_eq!((pool.hit_count(), pool.miss_count()), (1, 1));
}

#[test]
fn flushing_writes_dirty_pages_with_checksums() {
    let mut pool = BufferPool::new(4, vec![]);
    for _ in 0..3 {
        let (_, f) = pool.new_page().unwrap();
        pool.unpin(f, true);
    }
    assert_eq!(pool.file_pages().len(), 0);
    pool.flush_all();
    assert_eq!(pool.file_pages().len(), 3);
    let again = BufferPool::new(4, pool.file_pages().clone());
    assert_eq!(again.num_pages(), 3);
    let mut again = again;
    assert!(again.fetch_page(2).is_ok());
    assert!(again.get_page(0).is_some());
    assert!(again.get_page(3).is_none());
    let mut written = pool.take_written();
    written.sort();
    assert_eq!(written, [0, 1, 2]);
}

#[test]
fn the_longest_unused_frame_is_evicted_first() {
    let mut lru = LruReplacer::new(4);
    for f in [2, 0, 3] {
        lru.unpin(f);
    }
    assert_eq!(lru.size(), 3);
    lru.record_access(2);
    lru.pin(3);
    assert_eq!(lru.evict(), Some(0));
    assert_eq!(lru.evict(), Some(2));
    assert_eq!(lru.evict(), None);
}
