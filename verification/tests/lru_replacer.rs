use venom_db::buffer::lru_replacer::LruReplacer;

#[test]
fn test_basic_eviction() {
    let mut r = LruReplacer::new(3);
    r.unpin(0); r.unpin(1); r.unpin(2);
    assert_eq!(r.evict(), Some(0));
    assert_eq!(r.evict(), Some(1));
    assert_eq!(r.evict(), Some(2));
    assert_eq!(r.evict(), None);
}

#[test]
fn test_record_access_moves_to_back() {
    let mut r = LruReplacer::new(3);
    r.unpin(0); r.unpin(1); r.unpin(2);
    r.record_access(0); // 0 becomes MRU
    assert_eq!(r.evict(), Some(1));
    assert_eq!(r.evict(), Some(2));
    assert_eq!(r.evict(), Some(0));
}

#[test]
fn test_pin_removes_from_candidates() {
    let mut r = LruReplacer::new(3);
    r.unpin(0); r.unpin(1); r.unpin(2);
    r.pin(0); // 0 no longer evictable
    assert_eq!(r.evict(), Some(1));
    assert_eq!(r.evict(), Some(2));
    assert_eq!(r.evict(), None);
}
