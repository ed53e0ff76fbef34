//! What holds of every state that the engine reaches, and why each
//! operation keeps it so.
use vstd::prelude::*;
use crate::kinds::{BorrowKind, OwnershipState};
use crate::value_table::{table_wf, Variable};
use crate::borrow_ledger::{ledger_wf, lemma_first_conflict_from, Borrow};
use crate::scope_tree::{
    lemma_bind_keeps_wf, lemma_close_keeps_wf, lemma_first_outliving_from, lemma_open_chain_frame,
    lemma_open_keeps_wf, open_chain, outlives, tree_wf,
};
use crate::stream::{references, used_after, Entry, Operation};
use crate::model::{run, step, step_borrow, step_declare, step_move, step_use, Fault, Model};

verus! {

/// The borrow is open, on `var`, and of `kind`.
pub open spec fn is_open_on(b: Borrow, var: usize, kind: BorrowKind) -> bool {
    !b.finalized && b.var == var && b.kind == kind
}

/// 1 if the borrow is open, on `var` and of `kind`; 0 otherwise.
pub open spec fn weight(b: Borrow, var: usize, kind: BorrowKind) -> nat {
    if is_open_on(b, var, kind) {
        1
    } else {
        0
    }
}

/// The number of open borrows of `kind` on `var`.
pub open spec fn open_count(borrows: Seq<Borrow>, var: usize, kind: BorrowKind) -> nat
    decreases borrows.len(),
{
    if borrows.len() == 0 {
        0
    } else {
        open_count(borrows.drop_last(), var, kind) + weight(borrows.last(), var, kind)
    }
}

/// The ownership state says how many open borrows of each kind there are.
pub open spec fn state_matches(state: OwnershipState, shared: nat, exclusive: nat) -> bool {
    match state {
        OwnershipState::Owned => shared == 0 && exclusive == 0,
        OwnershipState::MovedOut => shared == 0 && exclusive == 0,
        OwnershipState::BorrowedShared(n) => shared == n && exclusive == 0,
        OwnershipState::BorrowedExclusive => shared == 0 && exclusive == 1,
    }
}

/// The value table and the borrow ledger agree: every borrow is of a
/// declared variable, and the state of every variable counts the open
/// borrows of it.
pub open spec fn consistent(vars: Seq<Variable>, borrows: Seq<Borrow>) -> bool {
    &&& forall|b: int| 0 <= b < borrows.len() ==> (#[trigger] borrows[b]).var < vars.len()
    &&& forall|v: int|
        0 <= v < vars.len() ==> state_matches(
            (#[trigger] vars[v]).state,
            open_count(borrows, v as usize, BorrowKind::Shared),
            open_count(borrows, v as usize, BorrowKind::Exclusive),
        )
}

/// Before operation `i`, a borrow is locked exactly when no operation from
/// `i` on uses it.
pub open spec fn synced(borrows: Seq<Borrow>, ops: Seq<Entry>, i: int) -> bool {
    forall|b: int|
        0 <= b < borrows.len() ==> ((#[trigger] borrows[b]).finalized <==> !used_after(
            ops,
            i - 1,
            b as usize,
        ))
}

/// The invariant of the engine before operation `i` of `ops`.
pub open spec fn inv(m: Model, ops: Seq<Entry>, i: int) -> bool {
    &&& 0 <= i <= ops.len() <= usize::MAX
    &&& table_wf(m.vars)
    &&& m.vars.len() <= i
    &&& ledger_wf(m.ledger)
    &&& m.ledger.clock <= i
    &&& m.ledger.borrows.len() <= i
    &&& forall|b: int| 0 <= b < m.ledger.borrows.len() ==> (#[trigger] m.ledger.borrows[b]).end < i
    &&& consistent(m.vars, m.ledger.borrows)
    &&& synced(m.ledger.borrows, ops, i)
}

/// Appending a borrow adds its weight to the count.
pub proof fn lemma_count_push(s: Seq<Borrow>, x: Borrow, var: usize, kind: BorrowKind)
    ensures
        open_count(s.push(x), var, kind) == open_count(s, var, kind) + weight(x, var, kind),
{
    assert(s.push(x).drop_last() =~= s);
}

/// Replacing a borrow exchanges its weight in the count.
pub proof fn lemma_count_update(s: Seq<Borrow>, k: int, x: Borrow, var: usize, kind: BorrowKind)
    requires
        0 <= k < s.len(),
    ensures
        open_count(s.update(k, x), var, kind) + weight(s[k], var, kind) == open_count(s, var, kind)
            + weight(x, var, kind),
    decreases s.len(),
{
    let t = s.update(k, x);
    if k == s.len() - 1 {
        assert(t.drop_last() =~= s.drop_last());
    } else {
        lemma_count_update(s.drop_last(), k, x, var, kind);
        assert(t.drop_last() =~= s.drop_last().update(k, x));
    }
}

/// No more borrows are counted than there are.
pub proof fn lemma_count_bound(s: Seq<Borrow>, var: usize, kind: BorrowKind)
    ensures
        open_count(s, var, kind) <= s.len(),
    decreases s.len(),
{
    if s.len() > 0 {
        lemma_count_bound(s.drop_last(), var, kind);
    }
}

/// The count is positive exactly when some borrow is counted.
pub proof fn lemma_count_positive(s: Seq<Borrow>, var: usize, kind: BorrowKind)
    ensures
        open_count(s, var, kind) > 0 <==> exists|b: int|
            0 <= b < s.len() && is_open_on(#[trigger] s[b], var, kind),
    decreases s.len(),
{
    if s.len() > 0 {
        let rest = s.drop_last();
        lemma_count_positive(rest, var, kind);
        if open_count(s, var, kind) > 0 {
            if is_open_on(s.last(), var, kind) {
                assert(is_open_on(s[s.len() - 1], var, kind));
            } else {
                let b = choose|b: int| 0 <= b < rest.len() && is_open_on(#[trigger] rest[b], var, kind);
                assert(is_open_on(s[b], var, kind));
            }
        }
        if exists|b: int| 0 <= b < s.len() && is_open_on(#[trigger] s[b], var, kind) {
            let b = choose|b: int| 0 <= b < s.len() && is_open_on(#[trigger] s[b], var, kind);
            if b < s.len() - 1 {
                assert(is_open_on(rest[b], var, kind));
            }
        }
    }
}

/// A use from `i` on is a use at `i` or a use after `i`.
pub proof fn lemma_used_after_unfold(ops: Seq<Entry>, i: int, b: usize)
    requires
        0 <= i < ops.len(),
    ensures
        used_after(ops, i - 1, b) == (references(ops[i], b) || used_after(ops, i, b)),
{
    if used_after(ops, i - 1, b) {
        let j = choose|j: int| i - 1 < j < ops.len() && #[trigger] references(ops[j], b);
        if j != i {
            assert(i < j < ops.len() && references(ops[j], b));
        }
    }
    if references(ops[i], b) {
        assert(i - 1 < i < ops.len() && references(ops[i], b));
    }
    if used_after(ops, i, b) {
        let j = choose|j: int| i < j < ops.len() && #[trigger] references(ops[j], b);
        assert(i - 1 < j < ops.len() && references(ops[j], b));
    }
}

/// An operation that uses no borrow leaves every borrow as locked or as
/// open as it was.
proof fn lemma_synced_other(borrows: Seq<Borrow>, ops: Seq<Entry>, i: int)
    requires
        synced(borrows, ops, i),
        0 <= i < ops.len(),
        !(ops[i].op is UseBorrow),
    ensures
        synced(borrows, ops, i + 1),
{
    assert forall|b: int| 0 <= b < borrows.len() implies ((#[trigger] borrows[b]).finalized
        <==> !used_after(ops, i, b as usize)) by {
        lemma_used_after_unfold(ops, i, b as usize);
    }
}

/// `Declare` keeps the invariant.
proof fn lemma_keep_declare(m: Model, ops: Seq<Entry>, i: int, m2: Model)
    requires
        inv(m, ops, i),
        i < ops.len(),
        ops[i].op matches Operation::Declare { name, class } && step_declare(m, name, class) == Ok::<
            Model,
            Fault,
        >(m2),
    ensures
        inv(m2, ops, i + 1),
{
    let borrows = m.ledger.borrows;
    lemma_synced_other(borrows, ops, i);
    assert forall|v: int| 0 <= v < m2.vars.len() implies state_matches(
        (#[trigger] m2.vars[v]).state,
        open_count(borrows, v as usize, BorrowKind::Shared),
        open_count(borrows, v as usize, BorrowKind::Exclusive),
    ) by {
        if v < m.vars.len() {
            assert(m2.vars[v] == m.vars[v]);
        } else {
            lemma_count_positive(borrows, v as usize, BorrowKind::Shared);
            lemma_count_positive(borrows, v as usize, BorrowKind::Exclusive);
        }
    }
}

/// `MoveUse` keeps the invariant.
proof fn lemma_keep_move(m: Model, ops: Seq<Entry>, i: int, m2: Model)
    requires
        inv(m, ops, i),
        i < ops.len(),
        ops[i].op matches Operation::MoveUse { var } && step_move(m, var, i as usize) == Ok::<
            Model,
            Fault,
        >(m2),
    ensures
        inv(m2, ops, i + 1),
{
    let borrows = m.ledger.borrows;
    lemma_synced_other(borrows, ops, i);
    assert forall|v: int| 0 <= v < m2.vars.len() implies state_matches(
        (#[trigger] m2.vars[v]).state,
        open_count(borrows, v as usize, BorrowKind::Shared),
        open_count(borrows, v as usize, BorrowKind::Exclusive),
    ) && m2.vars[v].valid() by {
        assert(m.vars[v].valid());
        assert(state_matches(
            m.vars[v].state,
            open_count(borrows, v as usize, BorrowKind::Shared),
            open_count(borrows, v as usize, BorrowKind::Exclusive),
        ));
    }
}

/// `BorrowUse` keeps the invariant.
proof fn lemma_keep_borrow(m: Model, ops: Seq<Entry>, i: int, m2: Model)
    requires
        inv(m, ops, i),
        i < ops.len(),
        ops[i].op matches Operation::BorrowUse { kind, var } && step_borrow(
            m,
            kind,
            var,
            i as usize,
            used_after(ops, i, m.ledger.borrows.len() as usize),
        ) == Ok::<Model, Fault>(m2),
    ensures
        inv(m2, ops, i + 1),
{
    let kind = ops[i].op->BorrowUse_kind;
    let var = ops[i].op->BorrowUse_var;
    let borrows = m.ledger.borrows;
    let id = borrows.len() as int;
    let after = m2.ledger.borrows;
    let fresh = after[id];
    assert(after =~= borrows.push(fresh));
    lemma_first_conflict_from(borrows, var, kind, i as usize, 0);
    assert forall|a: int, c: int|
        #![trigger after[a], after[c]]
        0 <= a < c < after.len() && after[a].clashes(after[c].var, after[c].kind) implies after[a].precedes(
        after[c],
    ) by {
        assert(after[a] == borrows[a]);
        if c < id {
            assert(after[c] == borrows[c]);
        } else {
            assert(!borrows[a].excludes(var, kind, i as usize));
            assert(borrows[a].timed(m.ledger.clock));
        }
    }
    assert forall|b: int| 0 <= b < after.len() implies (#[trigger] after[b]).timed(
        m2.ledger.clock,
    ) && after[b].end < i + 1 && after[b].var < m2.vars.len() by {
        if b < id {
            assert(after[b] == borrows[b]);
            assert(borrows[b].timed(m.ledger.clock));
        }
    }
    assert forall|b: int| 0 <= b < after.len() implies ((#[trigger] after[b]).finalized
        <==> !used_after(ops, i, b as usize)) by {
        if b < id {
            assert(after[b] == borrows[b]);
            lemma_used_after_unfold(ops, i, b as usize);
        }
    }
    assert forall|v: int| 0 <= v < m2.vars.len() implies state_matches(
        (#[trigger] m2.vars[v]).state,
        open_count(after, v as usize, BorrowKind::Shared),
        open_count(after, v as usize, BorrowKind::Exclusive),
    ) && m2.vars[v].valid() by {
        lemma_count_push(borrows, fresh, v as usize, BorrowKind::Shared);
        lemma_count_push(borrows, fresh, v as usize, BorrowKind::Exclusive);
        assert(m.vars[v].valid());
        assert(state_matches(
            m.vars[v].state,
            open_count(borrows, v as usize, BorrowKind::Shared),
            open_count(borrows, v as usize, BorrowKind::Exclusive),
        ));
    }
}

/// `UseBorrow` keeps the invariant.
proof fn lemma_keep_use(m: Model, ops: Seq<Entry>, i: int, m2: Model)
    requires
        inv(m, ops, i),
        i < ops.len(),
        ops[i].op matches Operation::UseBorrow { borrow } && step_use(
            m,
            borrow,
            i as usize,
            used_after(ops, i, borrow),
        ) == Ok::<Model, Fault>(m2),
    ensures
        inv(m2, ops, i + 1),
{
    let b = ops[i].op->UseBorrow_borrow;
    let borrows = m.ledger.borrows;
    let after = m2.ledger.borrows;
    let changed = after[b as int];
    assert(after =~= borrows.update(b as int, changed));
    assert(borrows[b as int].timed(m.ledger.clock));
    assert forall|a: int, c: int|
        #![trigger after[a], after[c]]
        0 <= a < c < after.len() && after[a].clashes(after[c].var, after[c].kind) implies after[a].precedes(
        after[c],
    ) by {
        assert(borrows[a].clashes(borrows[c].var, borrows[c].kind));
        assert(borrows[a].precedes(borrows[c]));
    }
    assert forall|x: int| 0 <= x < after.len() implies (#[trigger] after[x]).timed(
        m2.ledger.clock,
    ) && after[x].end < i + 1 && after[x].var < m2.vars.len() by {
        assert(borrows[x].timed(m.ledger.clock));
        assert(borrows[x].var < m.vars.len());
    }
    assert forall|x: int| 0 <= x < after.len() implies ((#[trigger] after[x]).finalized
        <==> !used_after(ops, i, x as usize)) by {
        if x != b {
            assert(after[x] == borrows[x]);
            lemma_used_after_unfold(ops, i, x as usize);
        }
    }
    assert forall|v: int| 0 <= v < m2.vars.len() implies state_matches(
        (#[trigger] m2.vars[v]).state,
        open_count(after, v as usize, BorrowKind::Shared),
        open_count(after, v as usize, BorrowKind::Exclusive),
    ) && m2.vars[v].valid() by {
        lemma_count_update(borrows, b as int, changed, v as usize, BorrowKind::Shared);
        lemma_count_update(borrows, b as int, changed, v as usize, BorrowKind::Exclusive);
        assert(m.vars[v].valid());
        assert(state_matches(
            m.vars[v].state,
            open_count(borrows, v as usize, BorrowKind::Shared),
            open_count(borrows, v as usize, BorrowKind::Exclusive),
        ));
    }
}

/// An operation that changes neither the ledger nor the state or class of
/// a variable keeps the invariant.
proof fn lemma_keep_still(m: Model, ops: Seq<Entry>, i: int, m2: Model)
    requires
        inv(m, ops, i),
        i < ops.len(),
        !(ops[i].op is UseBorrow),
        m2.ledger == m.ledger,
        m2.vars.len() == m.vars.len(),
        forall|v: int|
            0 <= v < m.vars.len() ==> (#[trigger] m2.vars[v]).state == m.vars[v].state
                && m2.vars[v].class == m.vars[v].class,
    ensures
        inv(m2, ops, i + 1),
{
    lemma_synced_other(m.ledger.borrows, ops, i);
    assert forall|v: int| 0 <= v < m2.vars.len() implies state_matches(
        (#[trigger] m2.vars[v]).state,
        open_count(m.ledger.borrows, v as usize, BorrowKind::Shared),
        open_count(m.ledger.borrows, v as usize, BorrowKind::Exclusive),
    ) && m2.vars[v].valid() by {
        assert(m.vars[v].valid());
        assert(state_matches(
            m.vars[v].state,
            open_count(m.ledger.borrows, v as usize, BorrowKind::Shared),
            open_count(m.ledger.borrows, v as usize, BorrowKind::Exclusive),
        ));
    }
}

/// Every operation that is accepted keeps the invariant.
pub proof fn lemma_step_keeps_inv(m: Model, ops: Seq<Entry>, i: int, m2: Model)
    requires
        inv(m, ops, i),
        i < ops.len(),
        step(m, ops, i as usize) == Ok::<Model, Fault>(m2),
    ensures
        inv(m2, ops, i + 1),
{
    match ops[i].op {
        Operation::Declare { .. } => lemma_keep_declare(m, ops, i, m2),
        Operation::MoveUse { .. } => lemma_keep_move(m, ops, i, m2),
        Operation::BorrowUse { .. } => lemma_keep_borrow(m, ops, i, m2),
        Operation::UseBorrow { .. } => lemma_keep_use(m, ops, i, m2),
        Operation::Swap { .. } => lemma_keep_still(m, ops, i, m2),
        Operation::ScopeBegin => lemma_keep_still(m, ops, i, m2),
        Operation::ScopeEnd => lemma_keep_still(m, ops, i, m2),
        Operation::Unify { .. } => lemma_keep_still(m, ops, i, m2),
    }
}

/// Every state that the engine reaches satisfies the invariant.
pub proof fn lemma_run_inv(ops: Seq<Entry>, n: nat)
    requires
        n <= ops.len() <= usize::MAX,
        run(ops, n) is Ok,
    ensures
        inv(run(ops, n)->Ok_0, ops, n as int),
    decreases n,
{
    if n > 0 {
        lemma_run_inv(ops, (n - 1) as nat);
        let m = run(ops, (n - 1) as nat)->Ok_0;
        lemma_step_keeps_inv(m, ops, n - 1, run(ops, n)->Ok_0);
    }
}

/// What holds of the scopes before operation `i`: the tree is well-formed;
/// the innermost scope and every scope around it are open; a variable is
/// out of extent exactly from the close of its scope on; and a borrow of a
/// variable that is out of extent was locked before that scope closed.
pub open spec fn scoped(m: Model, i: int) -> bool {
    &&& tree_wf(m.scopes)
    &&& m.scopes.len() <= i + 1
    &&& open_chain(m.scopes, m.current)
    &&& forall|v: int|
        0 <= v < m.vars.len() ==> {
            &&& (#[trigger] m.vars[v]).scope < m.scopes.len()
            &&& m.vars[v].closed_at == m.scopes[m.vars[v].scope as int].closed_at
            &&& (m.vars[v].closed_at matches Some(c) ==> c < i)
        }
    &&& forall|b: int|
        0 <= b < m.ledger.borrows.len() ==> (m.vars[(#[trigger] m.ledger.borrows[b]).var as int].closed_at matches Some(
            c,
        ) ==> m.ledger.borrows[b].finalized && m.ledger.borrows[b].end < c)
}

/// Every operation that is accepted keeps what holds of the scopes.
pub proof fn lemma_step_keeps_scoped(m: Model, ops: Seq<Entry>, i: int, m2: Model)
    requires
        inv(m, ops, i),
        scoped(m, i),
        i < ops.len(),
        step(m, ops, i as usize) == Ok::<Model, Fault>(m2),
    ensures
        scoped(m2, i + 1),
{
    let vars = m.vars;
    let borrows = m.ledger.borrows;
    let after = m2.ledger.borrows;
    match ops[i].op {
        Operation::Declare { name, class } => {
            lemma_bind_keeps_wf(m.scopes, m.current, m.vars.len() as usize);
            lemma_open_chain_frame(m.scopes, m2.scopes, m.current);
            assert forall|v: int| 0 <= v < m2.vars.len() implies {
                &&& (#[trigger] m2.vars[v]).scope < m2.scopes.len()
                &&& m2.vars[v].closed_at == m2.scopes[m2.vars[v].scope as int].closed_at
                &&& (m2.vars[v].closed_at matches Some(c) ==> c < i + 1)
            } by {
                if v < vars.len() {
                    assert(m2.vars[v] == vars[v]);
                }
            }
            assert forall|b: int| 0 <= b < after.len() implies (m2.vars[(
            #[trigger] after[b]).var as int].closed_at matches Some(c) ==> after[b].finalized
                && after[b].end < c) by {
                assert(borrows[b].var < vars.len());
                assert(m2.vars[borrows[b].var as int] == vars[borrows[b].var as int]);
            }
        },
        Operation::MoveUse { var } => {
            assert forall|v: int| 0 <= v < m2.vars.len() implies (#[trigger] m2.vars[v]).scope
                == vars[v].scope && m2.vars[v].closed_at == vars[v].closed_at by {}
            assert forall|b: int| 0 <= b < after.len() implies (m2.vars[(
            #[trigger] after[b]).var as int].closed_at matches Some(c) ==> after[b].finalized
                && after[b].end < c) by {
                assert(borrows[b].var < vars.len());
            }
        },
        Operation::BorrowUse { kind, var } => {
            assert forall|v: int| 0 <= v < m2.vars.len() implies (#[trigger] m2.vars[v]).scope
                == vars[v].scope && m2.vars[v].closed_at == vars[v].closed_at by {}
            assert(vars[var as int].closed_at is None);
            assert forall|b: int| 0 <= b < after.len() implies (m2.vars[(
            #[trigger] after[b]).var as int].closed_at matches Some(c) ==> after[b].finalized
                && after[b].end < c) by {
                if b < borrows.len() {
                    assert(after[b] == borrows[b]);
                    assert(borrows[b].var < vars.len());
                }
            }
        },
        Operation::UseBorrow { borrow } => {
            assert(borrows[borrow as int].var < vars.len());
            assert forall|v: int| 0 <= v < m2.vars.len() implies (#[trigger] m2.vars[v]).scope
                == vars[v].scope && m2.vars[v].closed_at == vars[v].closed_at by {}
            assert forall|b: int| 0 <= b < after.len() implies (m2.vars[(
            #[trigger] after[b]).var as int].closed_at matches Some(c) ==> after[b].finalized
                && after[b].end < c) by {
                assert(borrows[b].var < vars.len());
                assert(after[b].var == borrows[b].var);
                if b != borrow {
                    assert(after[b] == borrows[b]);
                }
            }
        },
        Operation::Swap { .. } => {},
        Operation::Unify { .. } => {},
        Operation::ScopeBegin => {
            lemma_open_keeps_wf(m.scopes, m.current);
            lemma_open_chain_frame(m.scopes, m2.scopes, m.current);
            assert forall|v: int| 0 <= v < m2.vars.len() implies {
                &&& (#[trigger] m2.vars[v]).scope < m2.scopes.len()
                &&& m2.vars[v].closed_at == m2.scopes[m2.vars[v].scope as int].closed_at
                &&& (m2.vars[v].closed_at matches Some(c) ==> c < i + 1)
            } by {
                assert(m2.scopes[vars[v].scope as int].closed_at
                    == m.scopes[vars[v].scope as int].closed_at);
            }
        },
        Operation::ScopeEnd => {
            lemma_close_keeps_wf(m.scopes, m.current, i as usize);
            let p = m.scopes[m.current as int].parent->Some_0;
            lemma_open_chain_frame(m.scopes, m2.scopes, p);
            lemma_first_outliving_from(borrows, vars, m.current, 0);
            assert forall|v: int| 0 <= v < m2.vars.len() implies {
                &&& (#[trigger] m2.vars[v]).scope < m2.scopes.len()
                &&& m2.vars[v].closed_at == m2.scopes[m2.vars[v].scope as int].closed_at
                &&& (m2.vars[v].closed_at matches Some(c) ==> c < i + 1)
            } by {
                assert(m2.vars[v] == vars[v].retired(m.current, i as usize));
            }
            assert forall|b: int| 0 <= b < after.len() implies (m2.vars[(
            #[trigger] after[b]).var as int].closed_at matches Some(c) ==> after[b].finalized
                && after[b].end < c) by {
                let v = borrows[b].var as int;
                assert(v < vars.len());
                assert(m2.vars[v] == vars[v].retired(m.current, i as usize));
                assert(!outlives(borrows[b], vars, m.current));
            }
        },
    }
}

/// Every state that the engine reaches satisfies what holds of the scopes.
pub proof fn lemma_run_scoped(ops: Seq<Entry>, n: nat)
    requires
        n <= ops.len() <= usize::MAX,
        run(ops, n) is Ok,
    ensures
        inv(run(ops, n)->Ok_0, ops, n as int),
        scoped(run(ops, n)->Ok_0, n as int),
    decreases n,
{
    lemma_run_inv(ops, n);
    if n > 0 {
        lemma_run_scoped(ops, (n - 1) as nat);
        let m = run(ops, (n - 1) as nat)->Ok_0;
        lemma_step_keeps_scoped(m, ops, n - 1, run(ops, n)->Ok_0);
    }
}

} // verus!
