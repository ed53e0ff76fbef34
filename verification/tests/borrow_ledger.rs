use ownership_engine::borrow_ledger::{Borrow, BorrowLedger};
use ownership_engine::kinds::{BorrowKind, ErrorKind};

#[test]
fn new_ledger_is_empty() {
    let ledger = BorrowLedger::new();
    assert_eq!(ledger.len(), 0);
    assert_eq!(ledger.clock(), 0);
    assert_eq!(ledger.get(0), None);
}

#[test]
fn create_borrow_records_a_one_point_interval() {
    let mut ledger = BorrowLedger::new();
    assert_eq!(ledger.create_borrow(3, BorrowKind::Shared, 5), Ok(0));
    assert_eq!(
        ledger.get(0),
        Some(Borrow { kind: BorrowKind::Shared, var: 3, start: 5, end: 5, finalized: false })
    );
    assert_eq!(ledger.len(), 1);
    assert_eq!(ledger.clock(), 5);
}

#[test]
fn shared_borrows_of_one_variable_coexist() {
    let mut ledger = BorrowLedger::new();
    assert_eq!(ledger.create_borrow(0, BorrowKind::Shared, 1), Ok(0));
    assert_eq!(ledger.create_borrow(0, BorrowKind::Shared, 2), Ok(1));
    assert_eq!(ledger.create_borrow(0, BorrowKind::Shared, 2), Ok(2));
    assert_eq!(ledger.conflicting(0, BorrowKind::Shared, 3), None);
}

#[test]
fn exclusive_borrow_conflicts_with_any_live_borrow() {
    let mut ledger = BorrowLedger::new();
    assert_eq!(ledger.create_borrow(0, BorrowKind::Shared, 1), Ok(0));
    assert_eq!(ledger.create_borrow(0, BorrowKind::Exclusive, 2), Err(ErrorKind::ConflictingBorrow));
    assert_eq!(ledger.conflicting(0, BorrowKind::Exclusive, 2), Some(0));
    assert_eq!(ledger.len(), 1);
    assert_eq!(ledger.clock(), 1);
}

#[test]
fn shared_borrow_conflicts_with_a_live_exclusive_borrow() {
    let mut ledger = BorrowLedger::new();
    assert_eq!(ledger.create_borrow(0, BorrowKind::Exclusive, 1), Ok(0));
    assert_eq!(ledger.create_borrow(0, BorrowKind::Shared, 2), Err(ErrorKind::ConflictingBorrow));
    assert_eq!(ledger.create_borrow(0, BorrowKind::Exclusive, 2), Err(ErrorKind::ConflictingBorrow));
}

#[test]
fn borrows_of_different_variables_do_not_conflict() {
    let mut ledger = BorrowLedger::new();
    assert_eq!(ledger.create_borrow(0, BorrowKind::Exclusive, 1), Ok(0));
    assert_eq!(ledger.create_borrow(1, BorrowKind::Exclusive, 2), Ok(1));
    assert_eq!(ledger.conflicting(2, BorrowKind::Exclusive, 3), None);
}

#[test]
fn a_locked_borrow_conflicts_only_within_its_interval() {
    let mut ledger = BorrowLedger::new();
    assert_eq!(ledger.create_borrow(0, BorrowKind::Shared, 1), Ok(0));
    assert_eq!(ledger.record_use(0, 4), Ok(()));
    assert_eq!(ledger.finalize(0), Ok(()));
    assert_eq!(
        ledger.get(0),
        Some(Borrow { kind: BorrowKind::Shared, var: 0, start: 1, end: 4, finalized: true })
    );
    assert_eq!(ledger.conflicting(0, BorrowKind::Exclusive, 0), None);
    assert_eq!(ledger.conflicting(0, BorrowKind::Exclusive, 1), Some(0));
    assert_eq!(ledger.conflicting(0, BorrowKind::Exclusive, 4), Some(0));
    assert_eq!(ledger.conflicting(0, BorrowKind::Exclusive, 5), None);
    assert_eq!(ledger.create_borrow(0, BorrowKind::Exclusive, 4), Err(ErrorKind::ConflictingBorrow));
    assert_eq!(ledger.create_borrow(0, BorrowKind::Exclusive, 5), Ok(1));
}

#[test]
fn conflicting_names_the_earliest_borrow() {
    let mut ledger = BorrowLedger::new();
    assert_eq!(ledger.create_borrow(1, BorrowKind::Shared, 0), Ok(0));
    assert_eq!(ledger.create_borrow(0, BorrowKind::Shared, 1), Ok(1));
    assert_eq!(ledger.create_borrow(0, BorrowKind::Shared, 2), Ok(2));
    assert_eq!(ledger.finalize(1), Ok(()));
    assert_eq!(ledger.conflicting(0, BorrowKind::Exclusive, 3), Some(2));
    assert_eq!(ledger.conflicting(1, BorrowKind::Exclusive, 3), Some(0));
    assert_eq!(ledger.conflicting(0, BorrowKind::Shared, 3), None);
}

#[test]
fn record_use_moves_the_last_use_forward() {
    let mut ledger = BorrowLedger::new();
    ledger.create_borrow(0, BorrowKind::Exclusive, 2).unwrap();
    assert_eq!(ledger.record_use(0, 2), Ok(()));
    assert_eq!(ledger.record_use(0, 6), Ok(()));
    assert_eq!(ledger.get(0).unwrap().end, 6);
    assert_eq!(ledger.get(0).unwrap().start, 2);
    assert_eq!(ledger.clock(), 6);
}

#[test]
fn record_use_out_of_order_is_stale() {
    let mut ledger = BorrowLedger::new();
    ledger.create_borrow(0, BorrowKind::Shared, 2).unwrap();
    ledger.record_use(0, 6).unwrap();
    assert_eq!(ledger.record_use(0, 5), Err(ErrorKind::StaleUse));
    assert_eq!(ledger.get(0).unwrap().end, 6);
}

#[test]
fn record_use_of_a_locked_borrow_is_stale() {
    let mut ledger = BorrowLedger::new();
    ledger.create_borrow(0, BorrowKind::Shared, 2).unwrap();
    ledger.finalize(0).unwrap();
    assert_eq!(ledger.record_use(0, 3), Err(ErrorKind::StaleUse));
    assert_eq!(ledger.get(0).unwrap().end, 2);
}

#[test]
fn create_borrow_out_of_order_is_stale() {
    let mut ledger = BorrowLedger::new();
    ledger.create_borrow(0, BorrowKind::Shared, 5).unwrap();
    assert_eq!(ledger.create_borrow(1, BorrowKind::Shared, 4), Err(ErrorKind::StaleUse));
    assert_eq!(ledger.len(), 1);
}

#[test]
fn unknown_borrows_are_malformed() {
    let mut ledger = BorrowLedger::new();
    assert_eq!(ledger.record_use(0, 1), Err(ErrorKind::MalformedStream));
    assert_eq!(ledger.finalize(0), Err(ErrorKind::MalformedStream));
    ledger.create_borrow(0, BorrowKind::Shared, 1).unwrap();
    assert_eq!(ledger.record_use(1, 2), Err(ErrorKind::MalformedStream));
    assert_eq!(ledger.finalize(1), Err(ErrorKind::MalformedStream));
}

#[test]
fn finalize_twice_changes_nothing() {
    let mut ledger = BorrowLedger::new();
    ledger.create_borrow(0, BorrowKind::Exclusive, 1).unwrap();
    ledger.record_use(0, 3).unwrap();
    assert_eq!(ledger.finalize(0), Ok(()));
    let locked = ledger.get(0);
    assert_eq!(ledger.finalize(0), Ok(()));
    assert_eq!(ledger.get(0), locked);
    assert_eq!(locked.unwrap().finalized, true);
}
