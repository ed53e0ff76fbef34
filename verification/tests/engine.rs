use ownership_engine::engine::verify;
use ownership_engine::kinds::{BorrowKind, Classification, ErrorKind};
use ownership_engine::lifetime::LifetimeGroup;
use ownership_engine::model::Verdict;
use ownership_engine::stream::{last_references, Entry, Operation};

fn var_move(name: u64) -> Operation {
    Operation::Declare { name, class: Classification::Move }
}

fn var_copy(name: u64) -> Operation {
    Operation::Declare { name, class: Classification::Copy }
}

fn take(var: usize) -> Operation {
    Operation::MoveUse { var }
}

fn share(var: usize) -> Operation {
    Operation::BorrowUse { kind: BorrowKind::Shared, var }
}

fn lock(var: usize) -> Operation {
    Operation::BorrowUse { kind: BorrowKind::Exclusive, var }
}

fn touch(borrow: usize) -> Operation {
    Operation::UseBorrow { borrow }
}

fn tie(members: Vec<usize>) -> Operation {
    Operation::Unify { group: LifetimeGroup { members } }
}

/// Tags the operations with positions 100, 110, 120 and so on.
fn stream(ops: Vec<Operation>) -> Vec<Entry> {
    let mut entries = Vec::new();
    for (i, op) in ops.into_iter().enumerate() {
        entries.push(Entry { op, position: 100 + 10 * i as u64 });
    }
    entries
}

fn check(ops: Vec<Operation>) -> Verdict {
    verify(&stream(ops))
}

fn rejected(op_index: usize, reason: ErrorKind, borrow: Option<usize>) -> Verdict {
    Verdict::Rejected { op_index, position: 100 + 10 * op_index as u64, reason, borrow }
}

#[test]
fn empty_stream_is_accepted() {
    assert_eq!(check(Vec::new()), Verdict::Accepted);
}

#[test]
fn declarations_alone_are_accepted() {
    assert_eq!(check(vec![var_move(1), var_copy(2), var_move(3)]), Verdict::Accepted);
}

#[test]
fn duplicate_binding_in_one_scope_is_rejected() {
    let ops = vec![var_move(1), var_copy(2), var_copy(1)];
    assert_eq!(check(ops), rejected(2, ErrorKind::DuplicateBinding, None));
}

#[test]
fn shadowing_in_a_nested_scope_is_a_new_variable() {
    let ops = vec![
        var_move(1),
        Operation::ScopeBegin,
        var_move(1),
        take(1),
        Operation::ScopeEnd,
        take(0),
    ];
    assert_eq!(check(ops), Verdict::Accepted);
}

#[test]
fn a_moved_name_can_be_bound_again() {
    let ops = vec![var_move(1), take(0), var_move(1), take(1), take(0)];
    assert_eq!(check(ops), rejected(4, ErrorKind::UseAfterMove, None));
}

#[test]
fn a_name_of_a_closed_scope_can_be_bound_in_the_next_scope() {
    let ops = vec![
        Operation::ScopeBegin,
        var_move(1),
        Operation::ScopeEnd,
        Operation::ScopeBegin,
        var_move(1),
        take(1),
        Operation::ScopeEnd,
    ];
    assert_eq!(check(ops), Verdict::Accepted);
}

#[test]
fn only_the_first_move_succeeds() {
    let ops = vec![var_move(1), var_move(2), take(0), take(1), take(1)];
    assert_eq!(check(ops), rejected(4, ErrorKind::UseAfterMove, None));
}

#[test]
fn borrow_after_move_is_a_use_after_move() {
    assert_eq!(
        check(vec![var_move(1), take(0), share(0)]),
        rejected(2, ErrorKind::UseAfterMove, None)
    );
    assert_eq!(
        check(vec![var_move(1), take(0), lock(0)]),
        rejected(2, ErrorKind::UseAfterMove, None)
    );
}

#[test]
fn copy_variable_is_never_consumed() {
    let mut ops = vec![var_copy(1)];
    for _ in 0..20 {
        ops.push(take(0));
    }
    ops.push(lock(0));
    ops.push(take(0));
    assert_eq!(check(ops), Verdict::Accepted);
}

#[test]
fn move_while_borrowed_is_rejected_and_names_the_borrow() {
    let ops = vec![var_move(1), var_move(2), share(1), share(0), take(0), touch(1), touch(0)];
    assert_eq!(check(ops), rejected(4, ErrorKind::CannotMoveWhileBorrowed, Some(1)));
}

#[test]
fn move_after_the_last_use_of_a_borrow_is_accepted() {
    let ops = vec![var_move(1), share(0), touch(0), lock(0), touch(1), take(0)];
    assert_eq!(check(ops), Verdict::Accepted);
}

#[test]
fn overlapping_shared_borrows_are_accepted() {
    let ops = vec![var_move(1), share(0), share(0), share(0), touch(0), touch(2), touch(1), touch(0)];
    assert_eq!(check(ops), Verdict::Accepted);
}

#[test]
fn exclusive_borrow_during_an_exclusive_borrow_is_rejected() {
    let ops = vec![var_move(1), lock(0), lock(0), touch(0)];
    assert_eq!(check(ops), rejected(2, ErrorKind::ConflictingBorrow, Some(0)));
}

#[test]
fn shared_borrow_during_an_exclusive_borrow_is_rejected() {
    let ops = vec![var_move(1), lock(0), share(0), touch(0)];
    assert_eq!(check(ops), rejected(2, ErrorKind::ConflictingBorrow, Some(0)));
}

#[test]
fn exclusive_borrow_during_shared_borrows_names_the_earliest_live_one() {
    let ops = vec![var_move(1), share(0), share(0), share(0), lock(0), touch(2), touch(1)];
    assert_eq!(check(ops), rejected(4, ErrorKind::ConflictingBorrow, Some(1)));
}

#[test]
fn a_borrow_ends_at_its_last_use_not_at_the_end_of_its_scope() {
    let ops = vec![
        Operation::ScopeBegin,
        var_copy(1),
        share(0),
        touch(0),
        lock(0),
        touch(1),
        share(0),
        Operation::ScopeEnd,
    ];
    assert_eq!(check(ops), Verdict::Accepted);
}

#[test]
fn unused_borrows_never_conflict() {
    let ops = vec![var_copy(1), share(0), lock(0), lock(0), share(0), lock(0)];
    assert_eq!(check(ops), Verdict::Accepted);
}

#[test]
fn two_variables_borrowed_then_swapped_through_the_borrows() {
    // x: a shared borrow that is never used, then an exclusive one;
    // y: two unused shared borrows, then an exclusive one; both exclusive
    // borrows are used together at the end.
    let ops = vec![
        var_copy(1),
        share(0),
        lock(0),
        var_copy(2),
        share(1),
        share(1),
        lock(1),
        touch(1),
        touch(4),
        take(0),
        take(1),
    ];
    assert_eq!(check(ops), Verdict::Accepted);
}

#[test]
fn a_second_exclusive_borrow_is_refused_at_its_creation() {
    let ops = vec![
        var_copy(1),
        share(0),
        lock(0),
        var_copy(2),
        share(1),
        share(1),
        lock(1),
        lock(1),
        touch(1),
        touch(4),
    ];
    assert_eq!(check(ops), rejected(7, ErrorKind::ConflictingBorrow, Some(4)));
}

#[test]
fn swap_of_two_free_variables_is_accepted() {
    let ops = vec![var_move(1), var_copy(2), Operation::Swap { a: 0, b: 1 }, take(0), take(1)];
    assert_eq!(check(ops), Verdict::Accepted);
}

#[test]
fn swap_is_rejected_while_either_variable_is_borrowed() {
    let ops = vec![var_move(1), var_move(2), share(1), Operation::Swap { a: 0, b: 1 }, touch(0)];
    assert_eq!(check(ops), rejected(3, ErrorKind::ConflictingBorrow, Some(0)));
    let ops = vec![var_move(1), var_move(2), lock(0), Operation::Swap { a: 0, b: 1 }, touch(0)];
    assert_eq!(check(ops), rejected(3, ErrorKind::ConflictingBorrow, Some(0)));
}

#[test]
fn swap_after_the_borrows_ended_is_accepted() {
    let ops = vec![var_move(1), var_move(2), share(1), lock(0), touch(0), touch(1), Operation::Swap {
        a: 0,
        b: 1,
    }];
    assert_eq!(check(ops), Verdict::Accepted);
}

#[test]
fn swap_never_reports_a_use_after_move() {
    let ops = vec![var_move(1), var_move(2), take(0), Operation::Swap { a: 0, b: 1 }, take(1)];
    assert_eq!(check(ops), Verdict::Accepted);
}

#[test]
fn swap_of_a_variable_with_itself_conflicts() {
    let ops = vec![var_move(1), Operation::Swap { a: 0, b: 0 }];
    assert_eq!(check(ops), rejected(1, ErrorKind::ConflictingBorrow, None));
}

#[test]
fn swap_of_an_unknown_or_retired_variable_is_malformed() {
    let ops = vec![var_move(1), Operation::Swap { a: 0, b: 1 }];
    assert_eq!(check(ops), rejected(1, ErrorKind::MalformedStream, None));
    let ops = vec![
        var_move(1),
        Operation::ScopeBegin,
        var_move(2),
        Operation::ScopeEnd,
        Operation::Swap { a: 1, b: 0 },
    ];
    assert_eq!(check(ops), rejected(4, ErrorKind::MalformedStream, None));
}

#[test]
fn borrow_used_after_the_scope_of_its_variable_is_rejected_at_the_close() {
    let ops = vec![Operation::ScopeBegin, var_move(1), share(0), Operation::ScopeEnd, touch(0)];
    assert_eq!(check(ops), rejected(3, ErrorKind::BorrowOutlivesOwner, Some(0)));
}

#[test]
fn borrow_of_an_outer_variable_may_be_used_after_an_inner_scope() {
    let ops = vec![var_move(1), Operation::ScopeBegin, share(0), Operation::ScopeEnd, touch(0)];
    assert_eq!(check(ops), Verdict::Accepted);
}

#[test]
fn close_names_the_earliest_outliving_borrow() {
    let ops = vec![
        var_move(1),
        share(0),
        Operation::ScopeBegin,
        var_move(2),
        var_move(3),
        share(2),
        share(1),
        touch(1),
        Operation::ScopeEnd,
        touch(2),
        touch(1),
        touch(0),
    ];
    assert_eq!(check(ops), rejected(8, ErrorKind::BorrowOutlivesOwner, Some(1)));
}

#[test]
fn closing_the_root_scope_is_malformed() {
    assert_eq!(check(vec![Operation::ScopeEnd]), rejected(0, ErrorKind::MalformedStream, None));
    let ops = vec![Operation::ScopeBegin, Operation::ScopeEnd, Operation::ScopeEnd];
    assert_eq!(check(ops), rejected(2, ErrorKind::MalformedStream, None));
}

#[test]
fn scopes_may_stay_open_at_the_end() {
    let ops = vec![Operation::ScopeBegin, var_move(1), Operation::ScopeBegin, share(0)];
    assert_eq!(check(ops), Verdict::Accepted);
}

#[test]
fn use_of_a_retired_variable_is_malformed() {
    let ops = vec![Operation::ScopeBegin, var_move(1), Operation::ScopeEnd, take(0)];
    assert_eq!(check(ops), rejected(3, ErrorKind::MalformedStream, None));
    let ops = vec![Operation::ScopeBegin, var_copy(1), Operation::ScopeEnd, share(0)];
    assert_eq!(check(ops), rejected(3, ErrorKind::MalformedStream, None));
}

#[test]
fn use_of_a_moved_and_retired_variable_is_a_use_after_move() {
    let ops = vec![Operation::ScopeBegin, var_move(1), take(0), Operation::ScopeEnd, take(0)];
    assert_eq!(check(ops), rejected(4, ErrorKind::UseAfterMove, None));
}

#[test]
fn unknown_ids_are_malformed() {
    assert_eq!(check(vec![take(0)]), rejected(0, ErrorKind::MalformedStream, None));
    assert_eq!(check(vec![share(3)]), rejected(0, ErrorKind::MalformedStream, None));
    assert_eq!(check(vec![touch(0)]), rejected(0, ErrorKind::MalformedStream, None));
    assert_eq!(
        check(vec![var_move(1), share(0), touch(1)]),
        rejected(2, ErrorKind::MalformedStream, None)
    );
    assert_eq!(
        check(vec![var_move(1), share(0), touch(usize::MAX)]),
        rejected(2, ErrorKind::MalformedStream, None)
    );
    assert_eq!(
        check(vec![var_move(1), share(0), tie(vec![0, 1])]),
        rejected(2, ErrorKind::MalformedStream, None)
    );
}

#[test]
fn a_borrow_cannot_be_used_before_it_exists() {
    let ops = vec![var_move(1), touch(0), share(0)];
    assert_eq!(check(ops), rejected(1, ErrorKind::MalformedStream, None));
}

#[test]
fn group_of_disjoint_borrows_is_a_lifetime_conflict() {
    let ops = vec![var_move(1), share(0), share(0), tie(vec![0, 1])];
    assert_eq!(check(ops), rejected(3, ErrorKind::LifetimeConflict, None));
}

#[test]
fn group_of_overlapping_borrows_is_accepted() {
    let ops = vec![var_move(1), var_move(2), share(0), share(1), tie(vec![0, 1]), touch(0), touch(1)];
    assert_eq!(check(ops), Verdict::Accepted);
}

#[test]
fn two_groups_of_one_borrow_each_relax_the_constraint() {
    let ops = vec![
        Operation::ScopeBegin,
        var_move(1),
        share(0),
        Operation::ScopeEnd,
        Operation::ScopeBegin,
        var_move(2),
        share(1),
        tie(vec![0]),
        tie(vec![1]),
        Operation::ScopeEnd,
    ];
    assert_eq!(check(ops), Verdict::Accepted);
}

#[test]
fn empty_group_is_accepted() {
    assert_eq!(check(vec![tie(vec![])]), Verdict::Accepted);
}

#[test]
fn only_the_first_fault_is_reported() {
    let ops = vec![var_move(1), take(0), take(0), take(7), Operation::ScopeEnd];
    assert_eq!(check(ops), rejected(2, ErrorKind::UseAfterMove, None));
}

#[test]
fn consuming_both_inputs_and_using_them_again() {
    // Two strings are passed by value to a function and printed afterwards.
    let ops = vec![var_move(1), var_move(2), take(0), take(1), var_move(3), share(0), share(1)];
    assert_eq!(check(ops), rejected(5, ErrorKind::UseAfterMove, None));
}

#[test]
fn last_references_gives_the_last_use_of_each_borrow() {
    let ops = vec![var_move(1), share(0), share(0), touch(1), touch(0), touch(1), touch(9)];
    assert_eq!(last_references(&stream(ops)), vec![4, 5, 0, 0, 0, 0, 0]);
    assert_eq!(last_references(&Vec::new()), Vec::<usize>::new());
    assert_eq!(last_references(&stream(vec![touch(0)])), vec![0]);
}

#[test]
fn rejection_carries_the_position_of_the_operation() {
    let ops = vec![
        Entry { op: var_move(1), position: 7 },
        Entry { op: take(0), position: 3 },
        Entry { op: take(0), position: 42 },
        Entry { op: take(0), position: 9 },
    ];
    assert_eq!(
        verify(&ops),
        Verdict::Rejected {
            op_index: 2,
            position: 42,
            reason: ErrorKind::UseAfterMove,
            borrow: None
        }
    );
}

#[test]
fn positions_do_not_change_the_decision() {
    let same = |position: u64| {
        verify(&vec![
            Entry { op: var_move(1), position },
            Entry { op: share(0), position },
            Entry { op: lock(0), position },
            Entry { op: touch(0), position },
        ])
    };
    assert_eq!(
        same(0),
        Verdict::Rejected {
            op_index: 2,
            position: 0,
            reason: ErrorKind::ConflictingBorrow,
            borrow: Some(0)
        }
    );
    assert_eq!(
        same(u64::MAX),
        Verdict::Rejected {
            op_index: 2,
            position: u64::MAX,
            reason: ErrorKind::ConflictingBorrow,
            borrow: Some(0)
        }
    );
}
