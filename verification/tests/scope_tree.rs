use ownership_engine::borrow_ledger::BorrowLedger;
use ownership_engine::kinds::{BorrowKind, Classification, ErrorKind};
use ownership_engine::scope_tree::{first_outliving, ScopeTree};
use ownership_engine::value_table::ValueTable;

#[test]
fn new_tree_holds_the_open_root() {
    let tree = ScopeTree::new();
    assert_eq!(tree.len(), 1);
    assert_eq!(tree.parent_of(0), None);
    assert!(tree.is_open(0));
    assert_eq!(tree.closed_at(0), None);
    assert_eq!(tree.vars_of(0), Some(&Vec::new()));
    assert_eq!(tree.children_of(0), Some(&Vec::new()));
    assert_eq!(tree.vars_of(1), None);
    assert_eq!(tree.children_of(1), None);
    assert!(!tree.is_open(1));
}

#[test]
fn open_scope_links_parent_and_child() {
    let mut tree = ScopeTree::new();
    assert_eq!(tree.open_scope(0), Ok(1));
    assert_eq!(tree.open_scope(1), Ok(2));
    assert_eq!(tree.open_scope(0), Ok(3));
    assert_eq!(tree.len(), 4);
    assert_eq!(tree.parent_of(1), Some(0));
    assert_eq!(tree.parent_of(2), Some(1));
    assert_eq!(tree.parent_of(3), Some(0));
    assert_eq!(tree.children_of(0), Some(&vec![1, 3]));
    assert_eq!(tree.children_of(1), Some(&vec![2]));
    assert_eq!(tree.children_of(2), Some(&Vec::new()));
}

#[test]
fn open_scope_needs_an_open_parent() {
    let mut tree = ScopeTree::new();
    assert_eq!(tree.open_scope(1), Err(ErrorKind::MalformedStream));
    assert_eq!(tree.open_scope(0), Ok(1));
    assert_eq!(tree.close_scope(1, 4, &mut ValueTable::new(), &BorrowLedger::new()), Ok(()));
    assert_eq!(tree.open_scope(1), Err(ErrorKind::MalformedStream));
    assert_eq!(tree.len(), 2);
}

#[test]
fn close_scope_records_the_index() {
    let mut tree = ScopeTree::new();
    tree.open_scope(0).unwrap();
    assert_eq!(tree.close_scope(1, 9, &mut ValueTable::new(), &BorrowLedger::new()), Ok(()));
    assert!(!tree.is_open(1));
    assert_eq!(tree.closed_at(1), Some(9));
    assert!(tree.is_open(0));
    assert_eq!(tree.close_scope(1, 10, &mut ValueTable::new(), &BorrowLedger::new()), Err(ErrorKind::MalformedStream));
    assert_eq!(tree.closed_at(1), Some(9));
    assert_eq!(tree.close_scope(5, 10, &mut ValueTable::new(), &BorrowLedger::new()), Err(ErrorKind::MalformedStream));
}

#[test]
fn bind_appends_in_declaration_order() {
    let mut tree = ScopeTree::new();
    tree.open_scope(0).unwrap();
    assert_eq!(tree.bind(1, 4), Ok(()));
    assert_eq!(tree.bind(0, 5), Ok(()));
    assert_eq!(tree.bind(1, 6), Ok(()));
    assert_eq!(tree.vars_of(1), Some(&vec![4, 6]));
    assert_eq!(tree.vars_of(0), Some(&vec![5]));
}

#[test]
fn bind_needs_an_open_scope() {
    let mut tree = ScopeTree::new();
    assert_eq!(tree.bind(1, 0), Err(ErrorKind::MalformedStream));
    tree.open_scope(0).unwrap();
    tree.close_scope(1, 2, &mut ValueTable::new(), &BorrowLedger::new()).unwrap();
    assert_eq!(tree.bind(1, 0), Err(ErrorKind::MalformedStream));
    assert_eq!(tree.vars_of(1), Some(&Vec::new()));
}

#[test]
fn ancestry_follows_the_parent_links() {
    let mut tree = ScopeTree::new();
    tree.open_scope(0).unwrap();
    tree.open_scope(1).unwrap();
    tree.open_scope(0).unwrap();
    tree.open_scope(3).unwrap();
    assert!(tree.is_ancestor(0, 0));
    assert!(tree.is_ancestor(0, 2));
    assert!(tree.is_ancestor(1, 2));
    assert!(tree.is_ancestor(2, 2));
    assert!(tree.is_ancestor(3, 4));
    assert!(!tree.is_ancestor(2, 1));
    assert!(!tree.is_ancestor(1, 3));
    assert!(!tree.is_ancestor(3, 1));
    assert!(!tree.is_ancestor(1, 4));
    assert!(!tree.is_ancestor(2, 4));
}

#[test]
fn ancestry_of_unknown_scopes_is_false() {
    let tree = ScopeTree::new();
    assert!(!tree.is_ancestor(0, 1));
    assert!(!tree.is_ancestor(1, 0));
    assert!(!tree.is_ancestor(7, 7));
}

#[test]
fn ancestry_survives_closing() {
    let mut tree = ScopeTree::new();
    tree.open_scope(0).unwrap();
    tree.open_scope(1).unwrap();
    tree.close_scope(2, 3, &mut ValueTable::new(), &BorrowLedger::new()).unwrap();
    tree.close_scope(1, 4, &mut ValueTable::new(), &BorrowLedger::new()).unwrap();
    assert!(tree.is_ancestor(1, 2));
    assert!(tree.is_ancestor(0, 2));
}

#[test]
fn close_scope_retires_the_variables_of_the_scope() {
    let mut tree = ScopeTree::new();
    tree.open_scope(0).unwrap();
    let mut table = ValueTable::new();
    table.declare(1, Classification::Move, 0).unwrap();
    table.declare(2, Classification::Move, 1).unwrap();
    table.declare(3, Classification::Copy, 1).unwrap();
    let ledger = BorrowLedger::new();
    assert_eq!(tree.close_scope(1, 5, &mut table, &ledger), Ok(()));
    assert_eq!(tree.closed_at(1), Some(5));
    assert_eq!(table.get(0).unwrap().closed_at, None);
    assert_eq!(table.get(1).unwrap().closed_at, Some(5));
    assert_eq!(table.get(2).unwrap().closed_at, Some(5));
}

#[test]
fn close_scope_refuses_while_a_borrow_of_its_variable_is_open() {
    let mut tree = ScopeTree::new();
    tree.open_scope(0).unwrap();
    let mut table = ValueTable::new();
    table.declare(1, Classification::Move, 0).unwrap();
    table.declare(2, Classification::Move, 1).unwrap();
    let mut ledger = BorrowLedger::new();
    ledger.create_borrow(0, BorrowKind::Shared, 2).unwrap();
    ledger.create_borrow(1, BorrowKind::Shared, 3).unwrap();
    assert_eq!(first_outliving(&ledger, &table, 1), Some(1));
    assert_eq!(first_outliving(&ledger, &table, 0), Some(0));
    assert_eq!(first_outliving(&ledger, &table, 2), None);
    assert_eq!(tree.close_scope(1, 4, &mut table, &ledger), Err(ErrorKind::BorrowOutlivesOwner));
    assert!(tree.is_open(1));
    assert_eq!(table.get(1).unwrap().closed_at, None);
    ledger.finalize(1).unwrap();
    assert_eq!(first_outliving(&ledger, &table, 1), None);
    assert_eq!(tree.close_scope(1, 4, &mut table, &ledger), Ok(()));
    assert_eq!(table.get(1).unwrap().closed_at, Some(4));
    assert_eq!(table.get(0).unwrap().closed_at, None);
}

#[test]
fn close_scope_reports_a_closed_scope_before_an_open_borrow() {
    let mut tree = ScopeTree::new();
    tree.open_scope(0).unwrap();
    let mut table = ValueTable::new();
    table.declare(1, Classification::Move, 1).unwrap();
    let mut ledger = BorrowLedger::new();
    assert_eq!(tree.close_scope(1, 1, &mut table, &ledger), Ok(()));
    ledger.create_borrow(0, BorrowKind::Shared, 2).unwrap();
    assert_eq!(tree.close_scope(1, 3, &mut table, &ledger), Err(ErrorKind::MalformedStream));
    assert_eq!(tree.close_scope(9, 3, &mut table, &ledger), Err(ErrorKind::MalformedStream));
}

#[test]
fn first_outliving_skips_borrows_of_unknown_variables() {
    let table = ValueTable::new();
    let mut ledger = BorrowLedger::new();
    ledger.create_borrow(4, BorrowKind::Exclusive, 1).unwrap();
    assert_eq!(first_outliving(&ledger, &table, 0), None);
}
