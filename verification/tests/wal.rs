use venom_db::recovery::wal::WalManager;

#[test]
fn test_commit_survives_restart() {
    let log: Vec<u8>;
    {
        let mut wal = WalManager::new(Vec::new());
        let t = wal.begin_txn();
        wal.log_insert(t, 0, b"committed row").unwrap();
        wal.commit(t);
        log = wal.log_bytes().to_vec();
    }
    {
        let mut wal = WalManager::new(log.clone());
        let report = wal.recover();
        assert_eq!(report.redone, 1);
        assert_eq!(report.undone, 0);
        assert_eq!(wal.pages[&0].get_tuple(0).unwrap(), b"committed row");
    }
}

#[test]
fn test_uncommitted_txn_is_rolled_back() {
    let log: Vec<u8>;
    {
        let mut wal = WalManager::new(Vec::new());
        let t = wal.begin_txn();
        wal.log_insert(t, 0, b"should disappear").unwrap();
        // no commit
        log = wal.log_bytes().to_vec();
    }
    {
        let mut wal = WalManager::new(log.clone());
        let report = wal.recover();
        // txn was incomplete — must appear in incomplete set
        assert_eq!(report.incomplete_txns.len(), 1);
        // nothing was committed so REDO touches nothing
        assert_eq!(report.redone, 0);
    }
}

#[test]
fn test_mixed_committed_and_crashed() {
    let log: Vec<u8>;
    {
        let mut wal = WalManager::new(Vec::new());
        let t1 = wal.begin_txn();
        wal.log_insert(t1, 0, b"row A - committed").unwrap();
        wal.commit(t1);
        let t2 = wal.begin_txn();
        wal.log_insert(t2, 0, b"row B - should vanish").unwrap();
        // crash
        log = wal.log_bytes().to_vec();
    }
    {
        let mut wal = WalManager::new(log.clone());
        let report = wal.recover();
        assert_eq!(report.redone, 1);
        assert_eq!(report.incomplete_txns.len(), 1);
    }
}

#[test]
fn test_log_serialization_roundtrip() {
    let mut log: Vec<u8> = Vec::new();
    let mut wal = WalManager::new(log.clone());
    let t = wal.begin_txn();
    wal.log_insert(t, 5, b"hello wal").unwrap();
    wal.log_delete(t, 5, 0);
    wal.commit(t);
    let records = wal.read_all_records();
    assert_eq!(records.len(), 4);
}

#[test]
fn test_multiple_commits() {
    let log: Vec<u8>;
    {
        let mut wal = WalManager::new(Vec::new());
        for i in 0..5u32 {
            let t = wal.begin_txn();
            wal.log_insert(t, i, format!("row {}", i).as_bytes()).unwrap();
            wal.commit(t);
        }
        log = wal.log_bytes().to_vec();
    }
    {
        let mut wal = WalManager::new(log.clone());
        let report = wal.recover();
        assert_eq!(report.redone, 5);
        assert_eq!(report.undone, 0);
    }
}
