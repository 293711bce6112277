use venom_db::buffer::buffer_pool::BufferPool;
use venom_db::storage::error::StorageError;

fn hit_rate(pool: &BufferPool) -> f64 {
    let total = pool.hit_count() + pool.miss_count();
    if total == 0 {
        0.0
    } else {
        pool.hit_count() as f64 / total as f64 * 100.0
    }
}

#[test]
fn test_new_page_and_fetch() {
    let mut pool = BufferPool::new(4, vec![]);

    // Create a new page and write a tuple
    let (page_id, frame_id) = pool.new_page().unwrap();
    {
        let page = pool.get_page_mut(frame_id).unwrap();
        page.insert_tuple(b"hello from buffer pool");
    }
    pool.unpin(frame_id, true);
    pool.flush_page(page_id);

    // Fetch it back
    let frame_id2 = pool.fetch_page(page_id).unwrap();
    let data = pool
        .get_page(frame_id2)
        .unwrap()
        .get_tuple(0)
        .unwrap()
        .to_vec();
    pool.unpin(frame_id2, false);

    assert_eq!(data, b"hello from buffer pool");
}

#[test]
fn test_lru_eviction() {
    // Pool with only 3 frames
    let mut pool = BufferPool::new(3, vec![]);

    // Fill all 3 frames
    let (pid0, fid0) = pool.new_page().unwrap();
    let (pid1, fid1) = pool.new_page().unwrap();
    let (pid2, fid2) = pool.new_page().unwrap();

    // Unpin all — now all are eviction candidates
    pool.unpin(fid0, false);
    pool.unpin(fid1, false);
    pool.unpin(fid2, false);

    // Allocating a 4th page should evict page 0 (LRU)
    let (_pid3, _fid3) = pool.new_page().unwrap();

    // page 0 should no longer be cached
    assert!(!pool.is_cached(pid0));
    // pages 1 and 2 still in pool
    assert!(pool.is_cached(pid1));
    assert!(pool.is_cached(pid2));
}

#[test]
fn test_hit_rate() {
    let mut pool = BufferPool::new(4, vec![]);

    let (page_id, frame_id) = pool.new_page().unwrap();
    pool.unpin(frame_id, false);

    // Fetch the same page 9 more times — all hits
    for _ in 0..9 {
        let fid = pool.fetch_page(page_id).unwrap();
        pool.unpin(fid, false);
    }

    // 1 miss (initial new_page doesn't count as fetch)
    // 9 hits
    println!("Hit rate: {:.1}%", hit_rate(&pool));
    assert!(hit_rate(&pool) > 80.0);
    assert_eq!(pool.hit_count(), 9);
    assert_eq!(pool.miss_count(), 0);
}

#[test]
fn test_dirty_page_flushed_before_eviction() {
    let mut pool = BufferPool::new(2, vec![]); // tiny pool forces eviction

    let (pid0, fid0) = pool.new_page().unwrap();
    {
        let page = pool.get_page_mut(fid0).unwrap();
        page.insert_tuple(b"dirty data");
    }
    pool.unpin(fid0, true); // mark dirty, do NOT flush manually

    let (_pid1, fid1) = pool.new_page().unwrap();
    pool.unpin(fid1, false);

    let (_pid2, fid2) = pool.new_page().unwrap(); // forces eviction of pid0 (LRU)
    pool.unpin(fid2, false);

    // pid0 should have been auto-flushed to disk during eviction
    let fid_reload = pool.fetch_page(pid0).unwrap();
    let data = pool
        .get_page(fid_reload)
        .unwrap()
        .get_tuple(0)
        .unwrap()
        .to_vec();
    pool.unpin(fid_reload, false);

    assert_eq!(data, b"dirty data");
}

#[test]
fn a_pool_with_all_frames_pinned_is_full() {
    let mut pool = BufferPool::new(1, vec![]);
    let (id, frame) = pool.new_page().unwrap();
    assert_eq!(pool.new_page(), Err(StorageError::PoolFull));
    // The pinned page is found, and one more pin has to be given back.
    assert_eq!(pool.fetch_page(id), Ok(frame));
    pool.unpin(frame, true);
    assert_eq!(pool.new_page(), Err(StorageError::PoolFull));
    pool.unpin(frame, true);
    assert_eq!(pool.new_page().unwrap().0, 1);
    assert_eq!(StorageError::PoolFull.message(), "Buffer pool full: all pages are pinned");
}

#[test]
fn reading_past_the_file_or_a_damaged_page_fails() {
    let mut pool = BufferPool::new(2, vec![]);
    assert_eq!(pool.fetch_page(7), Err(StorageError::PastEnd));
    let (id, frame) = pool.new_page().unwrap();
    pool.get_page_mut(frame).unwrap().insert_tuple(b"x");
    pool.unpin(frame, true);
    pool.flush_all();
    assert_eq!(pool.take_written(), vec![id]);
    let mut file = pool.file_pages().clone();
    assert!(BufferPool::new(2, file.clone()).fetch_page(id).is_ok());
    file[0][100] ^= 1;
    assert_eq!(BufferPool::new(2, file).fetch_page(id), Err(StorageError::Checksum(0)));
}
