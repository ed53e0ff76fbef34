use ownership_engine::borrow_ledger::BorrowLedger;
use ownership_engine::kinds::{BorrowKind, Classification, ErrorKind};
use ownership_engine::lifetime::{unify, Interval, LifetimeGroup};
use ownership_engine::scope_tree::ScopeTree;
use ownership_engine::value_table::ValueTable;

fn group(members: Vec<usize>) -> LifetimeGroup {
    LifetimeGroup { members }
}

#[test]
fn empty_group_is_unbounded() {
    let r = unify(&group(vec![]), &BorrowLedger::new(), &ValueTable::new(), &ScopeTree::new());
    assert_eq!(r, Ok(Interval { start: 0, end: usize::MAX }));
}

#[test]
fn intersection_of_two_locked_intervals() {
    let mut table = ValueTable::new();
    table.declare(1, Classification::Move, 0).unwrap();
    table.declare(2, Classification::Move, 0).unwrap();
    let mut ledger = BorrowLedger::new();
    ledger.create_borrow(0, BorrowKind::Shared, 1).unwrap();
    ledger.create_borrow(1, BorrowKind::Shared, 3).unwrap();
    ledger.record_use(0, 5).unwrap();
    ledger.finalize(0).unwrap();
    ledger.record_use(1, 8).unwrap();
    ledger.finalize(1).unwrap();
    let tree = ScopeTree::new();
    assert_eq!(unify(&group(vec![0, 1]), &ledger, &table, &tree), Ok(Interval { start: 3, end: 5 }));
    assert_eq!(unify(&group(vec![1, 0]), &ledger, &table, &tree), Ok(Interval { start: 3, end: 5 }));
    assert_eq!(unify(&group(vec![0]), &ledger, &table, &tree), Ok(Interval { start: 1, end: 5 }));
    assert_eq!(
        unify(&group(vec![1, 1, 1]), &ledger, &table, &tree),
        Ok(Interval { start: 3, end: 8 })
    );
}

#[test]
fn intervals_that_touch_at_one_point_unify() {
    let mut table = ValueTable::new();
    table.declare(1, Classification::Move, 0).unwrap();
    let mut ledger = BorrowLedger::new();
    ledger.create_borrow(0, BorrowKind::Shared, 1).unwrap();
    ledger.record_use(0, 4).unwrap();
    ledger.finalize(0).unwrap();
    ledger.create_borrow(0, BorrowKind::Shared, 4).unwrap();
    ledger.finalize(1).unwrap();
    let tree = ScopeTree::new();
    assert_eq!(unify(&group(vec![0, 1]), &ledger, &table, &tree), Ok(Interval { start: 4, end: 4 }));
}

#[test]
fn disjoint_intervals_conflict() {
    let mut table = ValueTable::new();
    table.declare(1, Classification::Move, 0).unwrap();
    let mut ledger = BorrowLedger::new();
    ledger.create_borrow(0, BorrowKind::Shared, 1).unwrap();
    ledger.finalize(0).unwrap();
    ledger.create_borrow(0, BorrowKind::Shared, 2).unwrap();
    ledger.finalize(1).unwrap();
    let tree = ScopeTree::new();
    assert_eq!(unify(&group(vec![0, 1]), &ledger, &table, &tree), Err(ErrorKind::LifetimeConflict));
}

#[test]
fn open_borrow_is_bounded_by_the_close_of_its_scope() {
    let mut tree = ScopeTree::new();
    tree.open_scope(0).unwrap();
    let mut table = ValueTable::new();
    table.declare(1, Classification::Move, 0).unwrap();
    table.declare(2, Classification::Move, 1).unwrap();
    let mut ledger = BorrowLedger::new();
    ledger.create_borrow(0, BorrowKind::Shared, 2).unwrap();
    ledger.create_borrow(1, BorrowKind::Shared, 3).unwrap();
    assert_eq!(
        unify(&group(vec![0, 1]), &ledger, &table, &tree),
        Ok(Interval { start: 3, end: usize::MAX })
    );
    table.retire_scope(1, 6);
    assert_eq!(unify(&group(vec![0, 1]), &ledger, &table, &tree), Ok(Interval { start: 3, end: 6 }));
    assert_eq!(
        unify(&group(vec![0]), &ledger, &table, &tree),
        Ok(Interval { start: 2, end: usize::MAX })
    );
}

#[test]
fn sibling_scopes_conflict_and_nested_scopes_unify() {
    let mut tree = ScopeTree::new();
    tree.open_scope(0).unwrap();
    tree.open_scope(0).unwrap();
    tree.open_scope(2).unwrap();
    let mut table = ValueTable::new();
    table.declare(1, Classification::Move, 1).unwrap();
    table.declare(2, Classification::Move, 2).unwrap();
    table.declare(3, Classification::Move, 3).unwrap();
    table.declare(4, Classification::Move, 0).unwrap();
    let mut ledger = BorrowLedger::new();
    ledger.create_borrow(0, BorrowKind::Shared, 1).unwrap();
    ledger.create_borrow(1, BorrowKind::Shared, 1).unwrap();
    ledger.create_borrow(2, BorrowKind::Shared, 1).unwrap();
    ledger.create_borrow(3, BorrowKind::Shared, 1).unwrap();
    assert_eq!(unify(&group(vec![0, 1]), &ledger, &table, &tree), Err(ErrorKind::LifetimeConflict));
    assert_eq!(unify(&group(vec![2, 0]), &ledger, &table, &tree), Err(ErrorKind::LifetimeConflict));
    assert_eq!(
        unify(&group(vec![3, 1, 0]), &ledger, &table, &tree),
        Err(ErrorKind::LifetimeConflict)
    );
    assert_eq!(
        unify(&group(vec![1, 2]), &ledger, &table, &tree),
        Ok(Interval { start: 1, end: usize::MAX })
    );
    assert_eq!(
        unify(&group(vec![3, 2, 1]), &ledger, &table, &tree),
        Ok(Interval { start: 1, end: usize::MAX })
    );
    assert_eq!(
        unify(&group(vec![3, 0]), &ledger, &table, &tree),
        Ok(Interval { start: 1, end: usize::MAX })
    );
}

#[test]
fn unknown_members_are_malformed() {
    let mut table = ValueTable::new();
    table.declare(1, Classification::Move, 0).unwrap();
    let mut ledger = BorrowLedger::new();
    ledger.create_borrow(0, BorrowKind::Shared, 1).unwrap();
    ledger.create_borrow(5, BorrowKind::Shared, 1).unwrap();
    let tree = ScopeTree::new();
    assert_eq!(unify(&group(vec![0, 2]), &ledger, &table, &tree), Err(ErrorKind::MalformedStream));
    assert_eq!(unify(&group(vec![1]), &ledger, &table, &tree), Err(ErrorKind::MalformedStream));
    let mut elsewhere = ValueTable::new();
    elsewhere.declare(1, Classification::Move, 3).unwrap();
    assert_eq!(unify(&group(vec![0]), &ledger, &elsewhere, &tree), Err(ErrorKind::MalformedStream));
}

#[test]
fn malformed_wins_over_conflict() {
    let mut table = ValueTable::new();
    table.declare(1, Classification::Move, 0).unwrap();
    let mut ledger = BorrowLedger::new();
    ledger.create_borrow(0, BorrowKind::Shared, 1).unwrap();
    ledger.finalize(0).unwrap();
    ledger.create_borrow(0, BorrowKind::Shared, 2).unwrap();
    ledger.finalize(1).unwrap();
    let tree = ScopeTree::new();
    assert_eq!(unify(&group(vec![0, 1, 9]), &ledger, &table, &tree), Err(ErrorKind::MalformedStream));
}
