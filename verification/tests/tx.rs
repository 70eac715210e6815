use rqdb::storage::tuple::is_visible;
use rqdb::transaction::tx::{TxManager, TxState};

#[test]
fn begin_allocates_sequential_ids() {
    let mut tm = TxManager::new_in_memory(1);
    assert_eq!(tm.begin().unwrap(), 1);
    assert_eq!(tm.begin().unwrap(), 2);
    assert_eq!(tm.begin().unwrap(), 3);
    assert_eq!(tm.next_id(), 4);
}

#[test]
fn commit_active_tx() {
    let mut tm = TxManager::new_in_memory(1);
    let tx = tm.begin().unwrap();
    assert!(tm.is_active(tx));
    assert!(!tm.is_committed(tx));

    assert!(tm.commit(tx));
    assert!(tm.is_committed(tx));
    assert!(!tm.is_active(tx));
}

#[test]
fn abort_active_tx() {
    let mut tm = TxManager::new_in_memory(1);
    let tx = tm.begin().unwrap();
    assert!(tm.abort(tx));
    assert!(!tm.is_committed(tx));
    assert!(!tm.is_active(tx));
    assert_eq!(tm.state(tx), Some(TxState::Aborted));
}

#[test]
fn commit_non_active_returns_false() {
    let mut tm = TxManager::new_in_memory(1);
    let tx = tm.begin().unwrap();
    tm.abort(tx);
    assert!(!tm.commit(tx));
}

#[test]
fn abort_non_active_returns_false() {
    let mut tm = TxManager::new_in_memory(1);
    let tx = tm.begin().unwrap();
    tm.commit(tx);
    assert!(!tm.abort(tx));
}

#[test]
fn unknown_txid_treated_as_not_committed() {
    let tm = TxManager::new_in_memory(1);
    assert!(!tm.is_committed(42));
    assert!(!tm.is_active(42));
}

#[test]
fn bootstrap_txid_always_committed() {
    let tm = TxManager::new_in_memory(1);
    assert!(tm.is_committed(0));
    assert_eq!(tm.state(0), Some(TxState::Committed));
}

#[test]
fn committed_checker_closure() {
    let mut tm = TxManager::new_in_memory(1);
    let tx1 = tm.begin().unwrap();
    let tx2 = tm.begin().unwrap();
    tm.commit(tx1);

    let checker = tm.committed_checker();
    assert!(checker(0));
    assert!(checker(tx1));
    assert!(!checker(tx2));
    assert!(!checker(99));
}

#[test]
fn double_commit_returns_false() {
    let mut tm = TxManager::new_in_memory(1);
    let tx = tm.begin().unwrap();
    assert!(tm.commit(tx));
    assert!(!tm.commit(tx));
}

#[test]
fn interleaved_transactions() {
    let mut tm = TxManager::new_in_memory(1);
    let tx1 = tm.begin().unwrap();
    let tx2 = tm.begin().unwrap();
    let tx3 = tm.begin().unwrap();

    tm.commit(tx1);
    tm.abort(tx3);

    assert!(tm.is_committed(tx1));
    assert!(tm.is_active(tx2));
    assert_eq!(tm.state(tx3), Some(TxState::Aborted));
}

#[test]
fn txlog_persistence() {
    let txlog;
    {
        let mut tm = TxManager::open(None).unwrap();
        assert_eq!(tm.next_id(), 1);
        let tx1 = tm.begin().unwrap();
        assert_eq!(tx1, 1);
        let tx2 = tm.begin().unwrap();
        assert_eq!(tx2, 2);
        txlog = tm.txlog_bytes();
    }

    {
        let tm = TxManager::open(Some(&txlog)).unwrap();
        assert_eq!(tm.next_id(), 3);
    }
}

#[test]
fn txlog_is_eight_bytes_little_endian() {
    let mut tm = TxManager::new_in_memory(0x0102);
    assert_eq!(tm.txlog_bytes(), vec![2, 1, 0, 0, 0, 0, 0, 0]);
    tm.begin().unwrap();
    assert_eq!(tm.txlog_bytes(), vec![3, 1, 0, 0, 0, 0, 0, 0]);
}

#[test]
fn short_txlog_is_refused() {
    let err = TxManager::open(Some(&[1, 2, 3])).unwrap_err();
    assert_eq!(err.to_string(), "catalog error: TXLOG is corrupted (too short)");
}

#[test]
fn allocated_number_is_used_up() {
    let mut tm = TxManager::new_in_memory(5);
    let tx = tm.allocate();
    assert_eq!(tx, 5);
    assert!(!tm.is_active(tx));
    tm.activate(tx);
    assert!(tm.is_active(tx));
    assert_eq!(tm.begin().unwrap(), 6);
}

#[test]
fn rollback_undoes_and_commit_shows() {
    let mut tm = TxManager::new_in_memory(1);
    let maker = tm.begin().unwrap();
    assert!(tm.commit(maker));
    let gone = tm.begin().unwrap();
    let kept = tm.begin().unwrap();
    let reader = tm.begin().unwrap();
    assert!(tm.abort(gone));
    assert!(tm.commit(kept));
    let committed = tm.committed_checker();
    assert!(!is_visible(gone, 0, reader, &committed));
    assert!(is_visible(maker, gone, reader, &committed));
    assert!(is_visible(kept, 0, reader, &committed));
    assert!(!is_visible(maker, kept, reader, &committed));
}

#[test]
fn only_a_commit_that_succeeds_commits() {
    let mut tm = TxManager::new_in_memory(1);
    let a = tm.begin().unwrap();
    let b = tm.begin().unwrap();
    assert!(tm.abort(a));
    assert!(!tm.commit(a));
    assert!(!tm.commit(99));
    assert!(tm.commit(b));
    for (tx, want) in [(0, true), (a, false), (b, true), (99, false)] {
        assert_eq!(tm.is_committed(tx), want);
        assert_eq!(tm.state(tx) == Some(TxState::Committed), want);
        assert_eq!(tm.committed_checker()(tx), want);
    }
}
