use venom_db::recovery::log_record::LogRecord;
use venom_db::recovery::wal::WalManager;

#[test]
fn records_are_read_back() {
    let records = vec![
        LogRecord::Begin { lsn: 0, txn_id: 1 },
        LogRecord::Insert { lsn: 1, txn_id: 1, page_id: 2, slot_id: 3, data: vec![4, 5] },
        LogRecord::Delete { lsn: 2, txn_id: 1, page_id: 2, slot_id: 3, old_data: vec![] },
        LogRecord::Update {
            lsn: 3,
            txn_id: 1,
            page_id: 2,
            slot_id: 3,
            old_data: vec![1, 2, 3],
            new_data: vec![9],
        },
        LogRecord::Commit { lsn: 4, txn_id: 1 },
        LogRecord::Abort { lsn: 5, txn_id: 2 },
        LogRecord::Checkpoint { lsn: 6 },
    ];
    for (i, r) in records.iter().enumerate() {
        let frame = r.to_bytes();
        assert_eq!(LogRecord::from_bytes(&frame[4..]).as_ref(), Some(r));
        assert_eq!(u32::from_le_bytes([frame[0], frame[1], frame[2], frame[3]]) as usize, frame.len() - 4);
        assert_eq!(r.lsn(), i as u64);
    }
    assert_eq!(records[1].txn_id(), Some(1));
    assert_eq!(records[6].txn_id(), None);
}

#[test]
fn a_record_that_is_cut_short_or_unknown_is_none() {
    assert_eq!(LogRecord::from_bytes(&[]), None);
    assert_eq!(LogRecord::from_bytes(&[9, 0, 0, 0]), None);
    let whole = LogRecord::Commit { lsn: 4, txn_id: 1 }.to_bytes();
    assert_eq!(LogRecord::from_bytes(&whole[4..whole.len() - 1]), None);
}

#[test]
fn a_begin_record_has_its_bytes() {
    let frame = LogRecord::Begin { lsn: 2, txn_id: 3 }.to_bytes();
    assert_eq!(frame, [13, 0, 0, 0, 0, 2, 0, 0, 0, 0, 0, 0, 0, 3, 0, 0, 0]);
}

#[test]
fn a_record_that_is_cut_short_is_dropped() {
    let mut wal = WalManager::new(vec![]);
    let t = wal.begin_txn();
    wal.log_insert(t, 0, b"row").unwrap();
    wal.commit(t);
    let log = wal.log_bytes().to_vec();
    let mut cut = WalManager::new(log[..log.len() - 1].to_vec());
    assert_eq!(cut.read_all_records().len(), 2);
    assert_eq!(cut.log_bytes(), &log[..log.len() - 17]);
    assert_eq!(cut.synced_len(), log.len() - 17);
    let u = cut.begin_txn();
    cut.log_insert(u, 0, b"later").unwrap();
    cut.commit(u);
    let again = WalManager::new(cut.log_bytes().to_vec());
    assert_eq!(again.read_all_records().len(), 5);
    assert_eq!(WalManager::new(log.clone()).log_bytes(), &log[..]);
}

#[test]
fn numbers_and_ids_go_on_after_a_restart() {
    let mut wal = WalManager::new(vec![]);
    let t = wal.begin_txn();
    wal.commit(t);
    assert_eq!(wal.current_lsn(), 2);
    let mut again = WalManager::new(wal.log_bytes().to_vec());
    assert_eq!(again.current_lsn(), 2);
    let t = again.begin_txn();
    assert_eq!(t, 2);
    assert_eq!(again.read_all_records().iter().map(|r| r.lsn()).collect::<Vec<_>>(), [0, 1, 2]);
}

#[test]
fn a_commit_of_an_earlier_session_does_not_count() {
    let mut wal = WalManager::new(vec![]);
    let t = wal.begin_txn();
    wal.log_insert(t, 0, b"stays").unwrap();
    wal.commit(t);
    let mut wal = WalManager::new(wal.log_bytes().to_vec());
    wal.recover();
    let t = wal.begin_txn();
    wal.log_insert(t, 0, b"goes").unwrap();
    let mut wal = WalManager::new(wal.log_bytes().to_vec());
    let report = wal.recover();
    assert_eq!(report.redone, 1);
    assert!(report.incomplete_txns.contains(&t));
    assert_eq!(wal.page(0).unwrap().get_tuple(0), Some(&b"stays"[..]));
    assert_eq!(wal.page(0).unwrap().get_tuple(1), None);
}

#[test]
fn only_commits_and_aborts_are_made_durable_at_once() {
    let mut wal = WalManager::new(vec![]);
    let t = wal.begin_txn();
    wal.log_insert(t, 0, b"row").unwrap();
    assert_eq!(wal.synced_len(), 0);
    assert!(wal.active_txns().contains(&t));
    wal.commit(t);
    assert_eq!(wal.synced_len(), wal.log_bytes().len());
    assert!(wal.active_txns().is_empty());
    let t = wal.begin_txn();
    wal.abort(t);
    assert_eq!(wal.synced_len(), wal.log_bytes().len());
    wal.begin_txn();
    wal.flush();
    assert_eq!(wal.synced_len(), wal.log_bytes().len());
}

#[test]
fn an_uncommitted_insertion_leaves_no_trace() {
    let mut wal = WalManager::new(vec![]);
    let t = wal.begin_txn();
    wal.log_insert(t, 0, b"stays").unwrap();
    wal.commit(t);
    let t = wal.begin_txn();
    wal.log_insert(t, 0, b"goes").unwrap();
    let mut again = WalManager::new(wal.log_bytes().to_vec());
    let report = again.recover();
    assert_eq!((report.redone, report.undone), (1, 1));
    assert!(report.incomplete_txns.contains(&t));
    assert_eq!(again.page(0).unwrap().get_tuple(0), Some(&b"stays"[..]));
    assert_eq!(again.page(0).unwrap().get_tuple(1), None);
}

#[test]
fn what_is_undone_is_counted_on_pages_that_are_there() {
    // The page of the insertion is made by no committed transaction.
    let mut wal = WalManager::new(vec![]);
    let t = wal.begin_txn();
    wal.log_insert(t, 0, b"lost").unwrap();
    wal.log_update(t, 0, 0, b"lost", b"gone");
    let report = WalManager::new(wal.log_bytes().to_vec()).recover();
    assert_eq!((report.redone, report.undone), (0, 0));
    assert_eq!(report.incomplete_txns.len(), 1);
    // A later deletion makes it.
    wal.log_delete(t, 0, 0);
    let report = WalManager::new(wal.log_bytes().to_vec()).recover();
    assert_eq!((report.redone, report.undone), (0, 2));
    // A committed deletion counts where the page is there before it.
    let c = wal.begin_txn();
    wal.log_delete(c, 0, 0);
    wal.log_insert(c, 0, b"kept").unwrap();
    wal.log_delete(c, 0, 1);
    wal.commit(c);
    let report = WalManager::new(wal.log_bytes().to_vec()).recover();
    assert_eq!((report.redone, report.undone), (2, 2));
    // Pages that the manager has count too.
    assert_eq!(wal.recover().redone, 3);
}

#[test]
fn an_uncommitted_deletion_leaves_the_row_in_its_place() {
    let mut wal = WalManager::new(vec![]);
    let t = wal.begin_txn();
    wal.log_insert(t, 0, b"row").unwrap();
    wal.commit(t);
    let t = wal.begin_txn();
    assert!(wal.log_delete(t, 0, 0));
    let mut again = WalManager::new(wal.log_bytes().to_vec());
    let report = again.recover();
    assert_eq!((report.redone, report.undone), (1, 1));
    let page = again.page(0).unwrap();
    assert_eq!(page.num_slots(), 1);
    assert_eq!(page.get_tuple(0), Some(&b"row"[..]));
}

#[test]
fn an_uncommitted_update_leaves_the_row_as_it_was() {
    let mut wal = WalManager::new(vec![]);
    let t = wal.begin_txn();
    wal.log_insert(t, 0, b"row").unwrap();
    wal.commit(t);
    let t = wal.begin_txn();
    wal.log_update(t, 0, 0, b"row", b"new");
    wal.abort(t);
    let mut again = WalManager::new(wal.log_bytes().to_vec());
    let report = again.recover();
    assert_eq!((report.redone, report.undone), (1, 0));
    assert!(report.incomplete_txns.is_empty());
    assert_eq!(again.page(0).unwrap().get_tuple(0), Some(&b"row"[..]));
}

#[test]
fn transactions_that_were_logged_in_turn_keep_their_slots() {
    let mut wal = WalManager::new(vec![]);
    let a = wal.begin_txn();
    let b = wal.begin_txn();
    assert_eq!(wal.log_insert(a, 0, b"lost").unwrap(), 0);
    assert_eq!(wal.log_insert(b, 0, b"kept").unwrap(), 1);
    assert_eq!(wal.log_insert(a, 0, b"lost too").unwrap(), 2);
    assert_eq!(wal.log_insert(b, 0, b"short-lived").unwrap(), 3);
    assert!(wal.log_delete(b, 0, 3));
    assert_eq!(wal.log_insert(b, 0, b"changed").unwrap(), 4);
    wal.log_update(b, 0, 4, b"changed", b"CHANGED");
    wal.commit(b);
    for end in ["cut off", "aborted"] {
        if end == "aborted" {
            wal.abort(a);
        }
        let mut again = WalManager::new(wal.log_bytes().to_vec());
        let report = again.recover();
        assert_eq!(report.redone, 5);
        assert_eq!(report.undone, if end == "aborted" { 0 } else { 2 });
        for _ in 0..2 {
            let page = again.page(0).unwrap();
            assert_eq!(page.get_tuple(0), None);
            assert_eq!(page.get_tuple(1), Some(&b"kept"[..]));
            assert_eq!(page.get_tuple(2), None);
            assert_eq!(page.get_tuple(3), None);
            assert_eq!(page.get_tuple(4), Some(&b"CHANGED"[..]));
            assert_eq!(page.num_slots(), 5);
            again.recover();
        }
    }
}

#[test]
fn an_update_is_redone() {
    let mut wal = WalManager::new(vec![]);
    let t = wal.begin_txn();
    wal.log_insert(t, 5, b"before").unwrap();
    wal.log_update(t, 5, 0, b"before", b"after");
    wal.commit(t);
    let mut again = WalManager::new(wal.log_bytes().to_vec());
    again.recover();
    assert_eq!(again.page(5).unwrap().get_tuple(0), Some(&b"aftere"[..]));
    assert!(again.page(6).is_none());
}

#[test]
fn a_tuple_that_does_not_fit_is_refused() {
    let mut wal = WalManager::new(vec![]);
    let t = wal.begin_txn();
    let before = wal.log_bytes().len();
    assert_eq!(wal.log_insert(t, 0, &[0; 5000]).unwrap_err().message(), "page full");
    assert_eq!(wal.log_bytes().len(), before);
}
