//! The rules of the discipline, stated of every stream and proved from the
//! model of the engine.
use vstd::prelude::*;
use crate::kinds::{BorrowKind, ErrorKind};
use crate::value_table::{name_live_in, read_spec};
use crate::borrow_ledger::{first_conflict, lemma_first_conflict_from};
use crate::stream::{used_after, Entry, Operation};
use crate::scope_tree::{lemma_first_outliving_from, outlives};
use crate::model::{
    lemma_rejection_stands, plain, run, step, var_usable, verdict, Fault, Model, Verdict,
};
use crate::reachable::{
    is_open_on, lemma_count_bound, lemma_count_positive, lemma_run_inv, lemma_run_scoped,
    lemma_used_after_unfold, open_count, state_matches,
};

verus! {

/// The engine reaches operation `i` of `ops` without a fault.
pub open spec fn reaches(ops: Seq<Entry>, i: usize) -> bool {
    ops.len() <= usize::MAX && i < ops.len() && run(ops, i as nat) is Ok
}

/// The state of the engine before operation `i`.
pub open spec fn state_before(ops: Seq<Entry>, i: usize) -> Model {
    run(ops, i as nat)->Ok_0
}

/// Some borrow of `var` is live at operation index `at`.
pub open spec fn borrowed_at(m: Model, var: usize, at: usize) -> bool {
    exists|b: int|
        0 <= b < m.ledger.borrows.len() && (#[trigger] m.ledger.borrows[b]).var == var
            && m.ledger.borrows[b].live_at(at)
}

/// Before operation `i`, a borrow is live at `i` exactly when it is open:
/// every locked interval has ended.
proof fn lemma_live_is_open(ops: Seq<Entry>, i: usize, b: int)
    requires
        reaches(ops, i),
        0 <= b < state_before(ops, i).ledger.borrows.len(),
    ensures
        state_before(ops, i).ledger.borrows[b].live_at(i) == !state_before(
            ops,
            i,
        ).ledger.borrows[b].finalized,
{
    lemma_run_inv(ops, i as nat);
    let m = state_before(ops, i);
    assert(m.ledger.borrows[b].timed(m.ledger.clock));
    assert(m.ledger.borrows[b].end < i);
}

/// Before operation `i`, the state of a variable says whether a borrow of
/// it is live.
proof fn lemma_state_tells_borrows(ops: Seq<Entry>, i: usize, var: usize)
    requires
        reaches(ops, i),
        var < state_before(ops, i).vars.len(),
    ensures
        state_before(ops, i).vars[var as int].state.is_borrowed() == borrowed_at(
            state_before(ops, i),
            var,
            i,
        ),
        state_before(ops, i).vars[var as int].state is BorrowedExclusive ==> exists|b: int|
            0 <= b < state_before(ops, i).ledger.borrows.len() && is_open_on(
                #[trigger] state_before(ops, i).ledger.borrows[b],
                var,
                BorrowKind::Exclusive,
            ),
        (exists|b: int|
            0 <= b < state_before(ops, i).ledger.borrows.len() && is_open_on(
                #[trigger] state_before(ops, i).ledger.borrows[b],
                var,
                BorrowKind::Exclusive,
            )) ==> state_before(ops, i).vars[var as int].state is BorrowedExclusive,
        state_before(ops, i).vars[var as int].state matches crate::kinds::OwnershipState::BorrowedShared(n)
            ==> n < usize::MAX,
{
    lemma_run_inv(ops, i as nat);
    let m = state_before(ops, i);
    let borrows = m.ledger.borrows;
    lemma_count_positive(borrows, var, BorrowKind::Shared);
    lemma_count_positive(borrows, var, BorrowKind::Exclusive);
    lemma_count_bound(borrows, var, BorrowKind::Shared);
    assert(m.vars[var as int].valid());
    assert(state_matches(
        m.vars[var as int].state,
        open_count(borrows, var, BorrowKind::Shared),
        open_count(borrows, var, BorrowKind::Exclusive),
    ));
    if m.vars[var as int].state.is_borrowed() {
        let kind = if m.vars[var as int].state is BorrowedExclusive {
            BorrowKind::Exclusive
        } else {
            BorrowKind::Shared
        };
        let b = choose|b: int| 0 <= b < borrows.len() && is_open_on(#[trigger] borrows[b], var, kind);
        lemma_live_is_open(ops, i, b);
        assert(borrows[b].var == var && borrows[b].live_at(i));
    }
    if borrowed_at(m, var, i) {
        let b = choose|b: int|
            0 <= b < borrows.len() && (#[trigger] borrows[b]).var == var && borrows[b].live_at(i);
        lemma_live_is_open(ops, i, b);
        assert(is_open_on(borrows[b], var, borrows[b].kind));
    }
}

/// A copy-eligible variable can be used by value again and again: such a
/// use is never refused as a use after a move, and while the variable is in
/// extent it is accepted and changes nothing.
pub proof fn law_copy_survives_moves(ops: Seq<Entry>, i: usize, var: usize)
    requires
        reaches(ops, i),
        ops[i as int].op == (Operation::MoveUse { var }),
        var < state_before(ops, i).vars.len(),
        state_before(ops, i).vars[var as int].class is Copy,
    ensures
        !(step(state_before(ops, i), ops, i) matches Err(f) && f.reason is UseAfterMove),
        state_before(ops, i).vars[var as int].usable_at(i) ==> step(state_before(ops, i), ops, i)
            == Ok::<Model, Fault>(state_before(ops, i)),
{
    lemma_run_inv(ops, i as nat);
    let m = state_before(ops, i);
    assert(m.vars[var as int].valid());
    if m.vars[var as int].usable_at(i) {
        assert(m.with_vars(m.vars) == m);
    }
}

/// A variable that was moved out stays moved out whatever is accepted next.
proof fn lemma_moved_stays(m: Model, ops: Seq<Entry>, k: usize, var: usize, m2: Model)
    requires
        k < ops.len(),
        var < m.vars.len(),
        m.vars[var as int].state is MovedOut,
        step(m, ops, k) == Ok::<Model, Fault>(m2),
    ensures
        var < m2.vars.len(),
        m2.vars[var as int].state is MovedOut,
{
}

/// A variable that was moved out stays moved out for the rest of the run.
proof fn lemma_moved_for_good(ops: Seq<Entry>, from: nat, to: nat, var: usize)
    requires
        from <= to <= ops.len() <= usize::MAX,
        run(ops, from) is Ok,
        run(ops, to) is Ok,
        var < run(ops, from)->Ok_0.vars.len(),
        run(ops, from)->Ok_0.vars[var as int].state is MovedOut,
    ensures
        var < run(ops, to)->Ok_0.vars.len(),
        run(ops, to)->Ok_0.vars[var as int].state is MovedOut,
    decreases to,
{
    if from < to {
        let before = (to - 1) as nat;
        if run(ops, before) is Err {
            lemma_rejection_stands(ops, before, to);
        }
        lemma_moved_for_good(ops, from, before, var);
        lemma_moved_stays(run(ops, before)->Ok_0, ops, before as usize, var, run(ops, to)->Ok_0);
    }
}

/// Once a use by value of a variable that is not copy-eligible has been
/// accepted, every later use by value and every later borrow of it is
/// rejected as a use after a move.
pub proof fn law_moved_out_is_final(ops: Seq<Entry>, i: usize, j: usize, var: usize)
    requires
        reaches(ops, i),
        reaches(ops, j),
        i < j,
        ops[i as int].op == (Operation::MoveUse { var }),
        var < state_before(ops, i).vars.len(),
        state_before(ops, i).vars[var as int].class is Move,
        ops[j as int].op == (Operation::MoveUse { var }) || exists|kind: BorrowKind|
            ops[j as int].op == (Operation::BorrowUse { kind, var }),
    ensures
        step(state_before(ops, j), ops, j) == Err::<Model, Fault>(plain(ErrorKind::UseAfterMove)),
        verdict(ops) == (Verdict::Rejected {
            op_index: j,
            position: ops[j as int].position,
            reason: ErrorKind::UseAfterMove,
            borrow: None,
        }),
{
    let next = (i + 1) as nat;
    if run(ops, next) is Err {
        lemma_rejection_stands(ops, next, j as nat);
    }
    lemma_moved_for_good(ops, next, j as nat, var);
    law_first_fault_decides(ops, j);
}

/// The exclusion rule at the creation of a borrow of a readable variable:
/// the borrow is accepted exactly when no borrow of the variable that is
/// live at that operation excludes it; otherwise it is rejected as
/// conflicting, and the rejection names the earliest such borrow.
pub proof fn law_borrow_rule(ops: Seq<Entry>, i: usize, kind: BorrowKind, var: usize)
    requires
        reaches(ops, i),
        ops[i as int].op == (Operation::BorrowUse { kind, var }),
        read_spec(state_before(ops, i).vars, var, i) is Ok,
    ensures
        match first_conflict(state_before(ops, i).ledger.borrows, var, kind, i) {
            Some(b) => step(state_before(ops, i), ops, i) == Err::<Model, Fault>(
                Fault { reason: ErrorKind::ConflictingBorrow, borrow: Some(b) },
            ),
            None => step(state_before(ops, i), ops, i) is Ok,
        },
        step(state_before(ops, i), ops, i) is Ok <==> forall|b: int|
            0 <= b < state_before(ops, i).ledger.borrows.len() ==> !(#[trigger] state_before(
                ops,
                i,
            ).ledger.borrows[b]).excludes(var, kind, i),
{
    lemma_run_inv(ops, i as nat);
    let m = state_before(ops, i);
    let borrows = m.ledger.borrows;
    lemma_first_conflict_from(borrows, var, kind, i, 0);
    lemma_state_tells_borrows(ops, i, var);
    if first_conflict(borrows, var, kind, i) is None {
        if m.vars[var as int].state is BorrowedExclusive {
            let b = choose|b: int|
                0 <= b < borrows.len() && is_open_on(#[trigger] borrows[b], var, BorrowKind::Exclusive);
            lemma_live_is_open(ops, i, b);
            assert(borrows[b].excludes(var, kind, i));
        }
        if kind is Exclusive && m.vars[var as int].state.is_borrowed() {
            let b = choose|b: int|
                0 <= b < borrows.len() && (#[trigger] borrows[b]).var == var && borrows[b].live_at(i);
            assert(borrows[b].excludes(var, kind, i));
        }
    }
}

/// Shared borrows coexist: while every live borrow of a readable variable
/// is shared, one more shared borrow of it is accepted.
pub proof fn law_shared_borrows_coexist(ops: Seq<Entry>, i: usize, var: usize)
    requires
        reaches(ops, i),
        ops[i as int].op == (Operation::BorrowUse { kind: BorrowKind::Shared, var }),
        read_spec(state_before(ops, i).vars, var, i) is Ok,
        forall|b: int|
            0 <= b < state_before(ops, i).ledger.borrows.len() && (#[trigger] state_before(
                ops,
                i,
            ).ledger.borrows[b]).var == var && state_before(ops, i).ledger.borrows[b].live_at(i)
                ==> state_before(ops, i).ledger.borrows[b].kind is Shared,
    ensures
        step(state_before(ops, i), ops, i) is Ok,
{
    law_borrow_rule(ops, i, BorrowKind::Shared, var);
}

/// An exclusive borrow excludes every other: while any borrow of a
/// variable is live, shared or exclusive, an exclusive borrow of it is
/// rejected as conflicting; and while an exclusive borrow is live, so is a
/// shared one.
pub proof fn law_exclusive_excludes(ops: Seq<Entry>, i: usize, kind: BorrowKind, var: usize, b: int)
    requires
        reaches(ops, i),
        ops[i as int].op == (Operation::BorrowUse { kind, var }),
        0 <= b < state_before(ops, i).ledger.borrows.len(),
        state_before(ops, i).ledger.borrows[b].var == var,
        state_before(ops, i).ledger.borrows[b].live_at(i),
        kind is Exclusive || state_before(ops, i).ledger.borrows[b].kind is Exclusive,
    ensures
        step(state_before(ops, i), ops, i) matches Err(f) && f.reason is ConflictingBorrow
            && f.borrow is Some,
{
    lemma_run_scoped(ops, i as nat);
    let m = state_before(ops, i);
    lemma_live_is_open(ops, i, b);
    assert(m.ledger.borrows[b].var < m.vars.len());
    lemma_state_tells_borrows(ops, i, var);
    assert(m.ledger.borrows[b].var == var && m.ledger.borrows[b].live_at(i));
    assert(borrowed_at(m, var, i));
    law_borrow_rule(ops, i, kind, var);
    assert(m.ledger.borrows[b].excludes(var, kind, i));
}

/// A borrow is locked exactly when the stream does not use it any more:
/// before operation `n`, the interval of a borrow is locked if and only if
/// no operation from `n` on uses the borrow.
pub proof fn law_borrow_locked_at_last_use(ops: Seq<Entry>, n: usize, b: usize)
    requires
        ops.len() <= usize::MAX,
        n <= ops.len(),
        run(ops, n as nat) is Ok,
        b < state_before(ops, n).ledger.borrows.len(),
    ensures
        state_before(ops, n).ledger.borrows[b as int].finalized <==> !used_after(
            ops,
            n as int - 1,
            b,
        ),
{
    lemma_run_inv(ops, n as nat);
    assert(state_before(ops, n).ledger.borrows[b as int].finalized <==> !used_after(
        ops,
        n as int - 1,
        (b as int) as usize,
    ));
}

/// No exclusive interval overlaps another interval on its variable: of two
/// borrows of one variable, one of them exclusive, the earlier is locked
/// and ends before the later begins.
pub proof fn law_exclusive_intervals_isolated(ops: Seq<Entry>, n: usize, a: int, c: int)
    requires
        ops.len() <= usize::MAX,
        n <= ops.len(),
        run(ops, n as nat) is Ok,
        0 <= a < c < state_before(ops, n).ledger.borrows.len(),
        state_before(ops, n).ledger.borrows[a].var == state_before(ops, n).ledger.borrows[c].var,
        state_before(ops, n).ledger.borrows[a].kind is Exclusive || state_before(
            ops,
            n,
        ).ledger.borrows[c].kind is Exclusive,
    ensures
        state_before(ops, n).ledger.borrows[a].finalized,
        state_before(ops, n).ledger.borrows[a].start <= state_before(ops, n).ledger.borrows[a].end,
        state_before(ops, n).ledger.borrows[a].end < state_before(ops, n).ledger.borrows[c].start,
{
    lemma_run_inv(ops, n as nat);
    let borrows = state_before(ops, n).ledger.borrows;
    assert(borrows[a].clashes(borrows[c].var, borrows[c].kind));
    assert(borrows[a].precedes(borrows[c]));
    assert(borrows[a].timed(state_before(ops, n).ledger.clock));
}

/// Borrow extents are not lexical. A borrow that no operation from `i` on
/// uses is not live at `i`, wherever its scope ends; so when that holds of
/// every borrow of a readable variable, a new borrow of it, exclusive or
/// shared, is accepted.
pub proof fn law_borrow_ends_at_last_use(ops: Seq<Entry>, i: usize, kind: BorrowKind, var: usize)
    requires
        reaches(ops, i),
        ops[i as int].op == (Operation::BorrowUse { kind, var }),
        read_spec(state_before(ops, i).vars, var, i) is Ok,
        forall|b: int|
            0 <= b < state_before(ops, i).ledger.borrows.len() && (#[trigger] state_before(
                ops,
                i,
            ).ledger.borrows[b]).var == var ==> !used_after(ops, i as int - 1, b as usize),
    ensures
        forall|b: int|
            0 <= b < state_before(ops, i).ledger.borrows.len() && (#[trigger] state_before(
                ops,
                i,
            ).ledger.borrows[b]).var == var ==> !state_before(ops, i).ledger.borrows[b].live_at(i),
        step(state_before(ops, i), ops, i) is Ok,
{
    lemma_run_inv(ops, i as nat);
    let borrows = state_before(ops, i).ledger.borrows;
    assert forall|b: int| 0 <= b < borrows.len() && (#[trigger] borrows[b]).var == var implies
        !borrows[b].live_at(i) by {
        lemma_live_is_open(ops, i, b);
    }
    law_borrow_rule(ops, i, kind, var);
}

/// A swap of two different variables that are in extent is accepted exactly
/// when neither has a live borrow; it then changes nothing. Whatever the
/// variables are, a swap is never refused as a use after a move.
pub proof fn law_swap(ops: Seq<Entry>, i: usize, a: usize, b: usize)
    requires
        reaches(ops, i),
        ops[i as int].op == (Operation::Swap { a, b }),
    ensures
        !(step(state_before(ops, i), ops, i) matches Err(f) && f.reason is UseAfterMove),
        step(state_before(ops, i), ops, i) is Ok ==> step(state_before(ops, i), ops, i) == Ok::<
            Model,
            Fault,
        >(state_before(ops, i)),
        a != b && var_usable(state_before(ops, i).vars, a, i) && var_usable(
            state_before(ops, i).vars,
            b,
            i,
        ) ==> (step(state_before(ops, i), ops, i) is Ok <==> !borrowed_at(state_before(ops, i), a, i)
            && !borrowed_at(state_before(ops, i), b, i)),
{
    lemma_run_inv(ops, i as nat);
    let m = state_before(ops, i);
    let borrows = m.ledger.borrows;
    lemma_first_conflict_from(borrows, a, BorrowKind::Exclusive, i, 0);
    lemma_first_conflict_from(borrows, b, BorrowKind::Exclusive, i, 0);
    if borrowed_at(m, a, i) {
        let c = choose|c: int|
            0 <= c < borrows.len() && (#[trigger] borrows[c]).var == a && borrows[c].live_at(i);
        assert(borrows[c].excludes(a, BorrowKind::Exclusive, i));
    }
    if borrowed_at(m, b, i) {
        let c = choose|c: int|
            0 <= c < borrows.len() && (#[trigger] borrows[c]).var == b && borrows[c].live_at(i);
        assert(borrows[c].excludes(b, BorrowKind::Exclusive, i));
    }
    match first_conflict(borrows, a, BorrowKind::Exclusive, i) {
        Some(c) => {
            assert(borrows[c as int].var == a && borrows[c as int].live_at(i));
        },
        None => {},
    }
    match first_conflict(borrows, b, BorrowKind::Exclusive, i) {
        Some(c) => {
            assert(borrows[c as int].var == b && borrows[c as int].live_at(i));
        },
        None => {},
    }
}

/// A use by value of a readable variable that is not copy-eligible is
/// accepted exactly when no borrow of it is live; otherwise it is rejected
/// because the variable is borrowed.
pub proof fn law_move_rule(ops: Seq<Entry>, i: usize, var: usize)
    requires
        reaches(ops, i),
        ops[i as int].op == (Operation::MoveUse { var }),
        read_spec(state_before(ops, i).vars, var, i) is Ok,
        state_before(ops, i).vars[var as int].class is Move,
    ensures
        step(state_before(ops, i), ops, i) is Ok <==> !borrowed_at(state_before(ops, i), var, i),
        borrowed_at(state_before(ops, i), var, i) ==> (step(state_before(ops, i), ops, i) matches Err(
            f,
        ) && f.reason is CannotMoveWhileBorrowed && f.borrow is Some),
{
    lemma_run_inv(ops, i as nat);
    lemma_state_tells_borrows(ops, i, var);
    let m = state_before(ops, i);
    let borrows = m.ledger.borrows;
    lemma_first_conflict_from(borrows, var, BorrowKind::Exclusive, i, 0);
    if borrowed_at(m, var, i) {
        let c = choose|c: int|
            0 <= c < borrows.len() && (#[trigger] borrows[c]).var == var && borrows[c].live_at(i);
        assert(borrows[c].excludes(var, BorrowKind::Exclusive, i));
    }
}

/// A use of a borrow is accepted exactly when the borrow was created; it
/// is never out of order.
pub proof fn law_known_borrow_is_usable(ops: Seq<Entry>, i: usize, borrow: usize)
    requires
        reaches(ops, i),
        ops[i as int].op == (Operation::UseBorrow { borrow }),
    ensures
        step(state_before(ops, i), ops, i) is Ok <==> borrow < state_before(
            ops,
            i,
        ).ledger.borrows.len(),
        borrow >= state_before(ops, i).ledger.borrows.len() ==> step(state_before(ops, i), ops, i)
            == Err::<Model, Fault>(plain(ErrorKind::MalformedStream)),
{
    lemma_run_inv(ops, i as nat);
    let m = state_before(ops, i);
    let borrows = m.ledger.borrows;
    if borrow < borrows.len() {
        lemma_used_after_unfold(ops, i as int, borrow);
        let rec = borrows[borrow as int];
        assert(!rec.finalized);
        assert(rec.var < m.vars.len());
        assert(is_open_on(rec, rec.var, rec.kind));
        lemma_count_positive(borrows, rec.var, rec.kind);
        assert(state_matches(
            m.vars[rec.var as int].state,
            open_count(borrows, rec.var, BorrowKind::Shared),
            open_count(borrows, rec.var, BorrowKind::Exclusive),
        ));
        assert(m.vars[rec.var as int].valid());
    }
}

/// A binding is accepted exactly when no live binding of the name belongs
/// to the innermost open scope; otherwise it is rejected as a duplicate.
/// The new variable takes the next free index.
pub proof fn law_declare_rule(ops: Seq<Entry>, i: usize, name: u64, class: crate::kinds::Classification)
    requires
        reaches(ops, i),
        ops[i as int].op == (Operation::Declare { name, class }),
    ensures
        name_live_in(state_before(ops, i).vars, name, state_before(ops, i).current) ==> step(
            state_before(ops, i),
            ops,
            i,
        ) == Err::<Model, Fault>(plain(ErrorKind::DuplicateBinding)),
        !name_live_in(state_before(ops, i).vars, name, state_before(ops, i).current) ==> (step(
            state_before(ops, i),
            ops,
            i,
        ) matches Ok(next) && next.vars.len() == state_before(ops, i).vars.len() + 1
            && next.vars[state_before(ops, i).vars.len() as int] == crate::value_table::fresh(
            name,
            class,
            state_before(ops, i).current,
        )),
{
    lemma_run_scoped(ops, i as nat);
}

/// A scope can always be opened: the innermost scope is open.
pub proof fn law_scope_begin_accepted(ops: Seq<Entry>, i: usize)
    requires
        reaches(ops, i),
        ops[i as int].op == Operation::ScopeBegin,
    ensures
        step(state_before(ops, i), ops, i) matches Ok(next) && next.current == state_before(
            ops,
            i,
        ).scopes.len() && next.scopes[next.current as int].parent == Some(
            state_before(ops, i).current,
        ),
{
    lemma_run_scoped(ops, i as nat);
}

/// The root scope cannot be closed. Any other innermost scope closes
/// exactly when no borrow of a variable it declared is still open, that is,
/// used later; otherwise the close is rejected because a borrow outlives
/// its owner, and the rejection names the earliest such borrow.
pub proof fn law_scope_end_rule(ops: Seq<Entry>, i: usize)
    requires
        reaches(ops, i),
        ops[i as int].op == Operation::ScopeEnd,
    ensures
        state_before(ops, i).current == 0 ==> step(state_before(ops, i), ops, i) == Err::<
            Model,
            Fault,
        >(plain(ErrorKind::MalformedStream)),
        state_before(ops, i).current != 0 ==> (step(state_before(ops, i), ops, i) is Ok
            <==> forall|b: int|
            0 <= b < state_before(ops, i).ledger.borrows.len() ==> !outlives(
                #[trigger] state_before(ops, i).ledger.borrows[b],
                state_before(ops, i).vars,
                state_before(ops, i).current,
            )),
        state_before(ops, i).current != 0 && step(state_before(ops, i), ops, i) is Err ==> (step(
            state_before(ops, i),
            ops,
            i,
        ) matches Err(f) && f.reason is BorrowOutlivesOwner && f.borrow is Some),
{
    lemma_run_scoped(ops, i as nat);
    let m = state_before(ops, i);
    lemma_first_outliving_from(m.ledger.borrows, m.vars, m.current, 0);
    if m.current != 0 {
        assert(m.scopes[m.current as int].parent is Some);
    }
}

/// No borrow outlives its owner: a borrow of a variable whose scope has
/// closed was locked, and its last use came before the close.
pub proof fn law_borrow_never_outlives_owner(ops: Seq<Entry>, n: usize, b: int)
    requires
        ops.len() <= usize::MAX,
        n <= ops.len(),
        run(ops, n as nat) is Ok,
        0 <= b < state_before(ops, n).ledger.borrows.len(),
    ensures
        state_before(ops, n).ledger.borrows[b].var < state_before(ops, n).vars.len(),
        state_before(ops, n).ledger.borrows[b].start <= state_before(ops, n).ledger.borrows[b].end,
        state_before(ops, n).vars[state_before(ops, n).ledger.borrows[b].var as int].closed_at matches Some(
            c,
        ) ==> state_before(ops, n).ledger.borrows[b].finalized && state_before(
            ops,
            n,
        ).ledger.borrows[b].end < c,
{
    lemma_run_scoped(ops, n as nat);
    let m = state_before(ops, n);
    assert(m.ledger.borrows[b].timed(m.ledger.clock));
}

/// The extent of a variable ends with its scope: a variable is out of
/// extent exactly from the operation that closed the scope which declared
/// it.
pub proof fn law_extent_ends_with_scope(ops: Seq<Entry>, n: usize, v: int)
    requires
        ops.len() <= usize::MAX,
        n <= ops.len(),
        run(ops, n as nat) is Ok,
        0 <= v < state_before(ops, n).vars.len(),
    ensures
        state_before(ops, n).vars[v].scope < state_before(ops, n).scopes.len(),
        state_before(ops, n).vars[v].closed_at == state_before(ops, n).scopes[state_before(
            ops,
            n,
        ).vars[v].scope as int].closed_at,
{
    lemma_run_scoped(ops, n as nat);
}

/// The engine feeds the ledger in order: no operation of a stream is ever
/// refused as a stale use.
pub proof fn law_order_is_kept(ops: Seq<Entry>, i: usize)
    requires
        reaches(ops, i),
    ensures
        !(step(state_before(ops, i), ops, i) matches Err(f) && f.reason is StaleUse),
{
    lemma_run_inv(ops, i as nat);
    match ops[i as int].op {
        Operation::UseBorrow { borrow } => {
            law_known_borrow_is_usable(ops, i, borrow);
        },
        _ => {},
    }
}

/// The first fault decides. When the engine reaches an operation that
/// raises a fault, the stream is rejected at that operation, for that
/// reason.
pub proof fn law_first_fault_decides(ops: Seq<Entry>, i: usize)
    requires
        reaches(ops, i),
        step(state_before(ops, i), ops, i) is Err,
    ensures
        verdict(ops) == (Verdict::Rejected {
            op_index: i,
            position: ops[i as int].position,
            reason: step(state_before(ops, i), ops, i)->Err_0.reason,
            borrow: step(state_before(ops, i), ops, i)->Err_0.borrow,
        }),
{
    lemma_rejection_stands(ops, (i + 1) as nat, ops.len());
}

/// A stream is never rejected for a use after a move at a use by value of
/// a copy-eligible variable: where that is the verdict, the variable is one
/// whose uses by value consume it.
pub proof fn law_verdict_spares_copies(ops: Seq<Entry>, var: usize)
    requires
        ops.len() <= usize::MAX,
        verdict(ops) matches Verdict::Rejected { op_index, reason, .. } && reason is UseAfterMove
            && ops[op_index as int].op == (Operation::MoveUse { var }),
    ensures
        var < state_before(ops, verdict(ops)->op_index).vars.len(),
        state_before(ops, verdict(ops)->op_index).vars[var as int].class is Move,
        state_before(ops, verdict(ops)->op_index).vars[var as int].state is MovedOut,
{
    law_rejection_names_first_fault(ops);
    let k = verdict(ops)->op_index;
    lemma_run_inv(ops, k as nat);
    let m = state_before(ops, k);
    assert(var < m.vars.len());
    assert(m.vars[var as int].valid());
}

/// A rejection names the first operation that raises a fault: the engine
/// reaches it without a fault, and the fault is the one reported.
pub proof fn law_rejection_names_first_fault(ops: Seq<Entry>)
    requires
        ops.len() <= usize::MAX,
    ensures
        match verdict(ops) {
            Verdict::Accepted => forall|k: usize| k < ops.len() ==> #[trigger] reaches(ops, k),
            Verdict::Rejected { op_index, position, reason, borrow } => {
                &&& reaches(ops, op_index)
                &&& position == ops[op_index as int].position
                &&& step(state_before(ops, op_index), ops, op_index) == Err::<Model, Fault>(
                    Fault { reason, borrow },
                )
            },
        },
{
    lemma_first_fault(ops, ops.len());
}

/// A rejected prefix names its first fault; an accepted prefix has none.
proof fn lemma_first_fault(ops: Seq<Entry>, n: nat)
    requires
        n <= ops.len() <= usize::MAX,
    ensures
        match run(ops, n) {
            Ok(_) => forall|k: usize| k < n ==> #[trigger] reaches(ops, k),
            Err(v) => v matches Verdict::Rejected { op_index, position, reason, borrow } && op_index
                < n && position == ops[op_index as int].position && reaches(ops, op_index) && step(state_before(ops, op_index), ops, op_index)
                == Err::<Model, Fault>(Fault { reason, borrow }),
        },
    decreases n,
{
    if n > 0 {
        lemma_first_fault(ops, (n - 1) as nat);
    }
}

} // verus!
