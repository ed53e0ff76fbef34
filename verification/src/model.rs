//! What the engine decides, as a state machine over the three tables: the
//! state, the effect of each operation on it, and the verdict of a stream.
use vstd::prelude::*;
use crate::kinds::{BorrowKind, Classification, ErrorKind};
use crate::value_table::{
    fresh, lend_spec, move_out_spec, name_live_in, read_spec, release_spec, retire_spec, Variable,
};
use crate::borrow_ledger::{first_conflict, record_use_spec, Borrow, LedgerView};
use crate::scope_tree::{first_outliving_from, open_spec, scope_open, ScopeView};
use crate::lifetime::unify_spec;
use crate::stream::{used_after, Entry, Operation};

verus! {

/// Why an operation was refused, and the borrow that stands in its way,
/// where one does.
#[derive(Clone, Copy, Debug, PartialEq, Eq)]
pub struct Fault {
    /// Why the operation is refused.
    pub reason: ErrorKind,
    /// The borrow that stands in the way, where one does.
    pub borrow: Option<usize>,
}

/// The answer of the engine for a whole stream.
#[derive(Clone, Copy, Debug, PartialEq, Eq)]
pub enum Verdict {
    /// Every operation is legal.
    Accepted,
    /// The operation at `op_index`, tagged with `position`, is the first
    /// that is not, for `reason`; `borrow` is the borrow that stands in its
    /// way, where one does.
    Rejected { op_index: usize, position: u64, reason: ErrorKind, borrow: Option<usize> },
}

/// The state of the engine between two operations.
pub struct Model {
    /// The value table.
    pub vars: Seq<Variable>,
    /// The scope tree.
    pub scopes: Seq<ScopeView>,
    /// The borrow ledger.
    pub ledger: LedgerView,
    /// The innermost open scope.
    pub current: usize,
}

impl Model {
    /// The state before the first operation: nothing declared, nothing
    /// borrowed, the root scope open.
    pub open spec fn initial() -> Model {
        Model {
            vars: Seq::empty(),
            scopes: seq![ScopeView::root()],
            ledger: LedgerView { borrows: Seq::empty(), clock: 0 },
            current: 0,
        }
    }

    /// The same state with another value table.
    pub open spec fn with_vars(self, vars: Seq<Variable>) -> Model {
        Model { vars, scopes: self.scopes, ledger: self.ledger, current: self.current }
    }

    /// The same state with another borrow ledger.
    pub open spec fn with_ledger(self, ledger: LedgerView) -> Model {
        Model { vars: self.vars, scopes: self.scopes, ledger, current: self.current }
    }
}

/// A fault that names no borrow.
pub open spec fn plain(reason: ErrorKind) -> Fault {
    Fault { reason, borrow: None }
}

/// Variable `id` was declared and is within its extent at `at`.
pub open spec fn var_usable(vars: Seq<Variable>, id: usize, at: usize) -> bool {
    id < vars.len() && vars[id as int].usable_at(at)
}

/// `Declare`: the name is bound in the innermost open scope, unless a live
/// binding of it already belongs to that scope.
pub open spec fn step_declare(m: Model, name: u64, class: Classification) -> Result<Model, Fault> {
    if !scope_open(m.scopes, m.current) {
        Err(plain(ErrorKind::MalformedStream))
    } else if name_live_in(m.vars, name, m.current) {
        Err(plain(ErrorKind::DuplicateBinding))
    } else {
        Ok(
            Model {
                vars: m.vars.push(fresh(name, class, m.current)),
                scopes: m.scopes.update(
                    m.current as int,
                    m.scopes[m.current as int].binding(m.vars.len() as usize),
                ),
                ledger: m.ledger,
                current: m.current,
            },
        )
    }
}

/// `MoveUse`: the value table decides. A move that is refused because the
/// variable is borrowed names the earliest live borrow of it.
pub open spec fn step_move(m: Model, var: usize, i: usize) -> Result<Model, Fault> {
    match move_out_spec(m.vars, var, i) {
        Ok(vars) => Ok(m.with_vars(vars)),
        Err(e) => Err(
            Fault {
                reason: e,
                borrow: if e is CannotMoveWhileBorrowed {
                    first_conflict(m.ledger.borrows, var, BorrowKind::Exclusive, i)
                } else {
                    None
                },
            },
        ),
    }
}

/// `BorrowUse`: the variable must be readable, and no live borrow of it may
/// exclude the new one. `kept` says whether the new borrow is used later:
/// if so it stays open and the variable is marked as borrowed; if not, its
/// interval is locked at once.
pub open spec fn step_borrow(m: Model, kind: BorrowKind, var: usize, i: usize, kept: bool) -> Result<
    Model,
    Fault,
> {
    match read_spec(m.vars, var, i) {
        Err(e) => Err(plain(e)),
        Ok(_) => if i < m.ledger.clock {
            Err(plain(ErrorKind::StaleUse))
        } else {
            match first_conflict(m.ledger.borrows, var, kind, i) {
                Some(b) => Err(Fault { reason: ErrorKind::ConflictingBorrow, borrow: Some(b) }),
                None => if kept {
                    match lend_spec(m.vars, var, kind, i) {
                        Err(e) => Err(plain(e)),
                        Ok(vars) => Ok(
                            Model {
                                vars,
                                scopes: m.scopes,
                                ledger: LedgerView {
                                    borrows: m.ledger.borrows.push(Borrow::opened(var, kind, i)),
                                    clock: i,
                                },
                                current: m.current,
                            },
                        ),
                    }
                } else {
                    Ok(
                        m.with_ledger(
                            LedgerView {
                                borrows: m.ledger.borrows.push(
                                    Borrow::opened(var, kind, i).locked(),
                                ),
                                clock: i,
                            },
                        ),
                    )
                },
            }
        },
    }
}

/// `UseBorrow`: the use is recorded as the last one so far. `kept` says
/// whether the borrow is used again later: if not, its interval is locked
/// and its variable is relieved of it.
pub open spec fn step_use(m: Model, b: usize, i: usize, kept: bool) -> Result<Model, Fault> {
    match record_use_spec(m.ledger, b, i) {
        Err(e) => Err(
            Fault {
                reason: e,
                borrow: if b < m.ledger.borrows.len() {
                    Some(b)
                } else {
                    None
                },
            },
        ),
        Ok(ledger) => if kept {
            Ok(m.with_ledger(ledger))
        } else {
            match release_spec(m.vars, ledger.borrows[b as int].var, ledger.borrows[b as int].kind) {
                Err(e) => Err(Fault { reason: e, borrow: Some(b) }),
                Ok(vars) => Ok(
                    Model {
                        vars,
                        scopes: m.scopes,
                        ledger: LedgerView {
                            borrows: ledger.borrows.update(
                                b as int,
                                ledger.borrows[b as int].locked(),
                            ),
                            clock: ledger.clock,
                        },
                        current: m.current,
                    },
                ),
            }
        },
    }
}

/// `Swap`: both variables must be within their extent, they must differ,
/// and neither may have a live borrow. Nothing changes: the two exclusive
/// borrows begin and end at this operation. Whether a variable was moved
/// out is not asked.
pub open spec fn step_swap(m: Model, a: usize, b: usize, i: usize) -> Result<Model, Fault> {
    if !var_usable(m.vars, a, i) || !var_usable(m.vars, b, i) {
        Err(plain(ErrorKind::MalformedStream))
    } else if a == b {
        Err(plain(ErrorKind::ConflictingBorrow))
    } else {
        match first_conflict(m.ledger.borrows, a, BorrowKind::Exclusive, i) {
            Some(c) => Err(Fault { reason: ErrorKind::ConflictingBorrow, borrow: Some(c) }),
            None => match first_conflict(m.ledger.borrows, b, BorrowKind::Exclusive, i) {
                Some(c) => Err(Fault { reason: ErrorKind::ConflictingBorrow, borrow: Some(c) }),
                None => Ok(m),
            },
        }
    }
}

/// `ScopeBegin`: a scope opens inside the innermost open scope and becomes
/// the innermost.
pub open spec fn step_begin(m: Model) -> Result<Model, Fault> {
    match open_spec(m.scopes, m.current) {
        Err(e) => Err(plain(e)),
        Ok(scopes) => Ok(
            Model {
                vars: m.vars,
                scopes,
                ledger: m.ledger,
                current: m.scopes.len() as usize,
            },
        ),
    }
}

/// `ScopeEnd`: the innermost open scope closes, unless it is the root or a
/// borrow of one of its variables is still open. Its variables go out of
/// extent, and its parent becomes the innermost scope.
pub open spec fn step_end(m: Model, i: usize) -> Result<Model, Fault> {
    if m.current == 0 || !scope_open(m.scopes, m.current) {
        Err(plain(ErrorKind::MalformedStream))
    } else {
        match first_outliving_from(m.ledger.borrows, m.vars, m.current, 0) {
            Some(b) => Err(Fault { reason: ErrorKind::BorrowOutlivesOwner, borrow: Some(b) }),
            None => match m.scopes[m.current as int].parent {
                None => Err(plain(ErrorKind::MalformedStream)),
                Some(p) => Ok(
                    Model {
                        vars: retire_spec(m.vars, m.current, i),
                        scopes: m.scopes.update(
                            m.current as int,
                            m.scopes[m.current as int].closing(i),
                        ),
                        ledger: m.ledger,
                        current: p,
                    },
                ),
            },
        }
    }
}

/// `Unify`: the lifetime solver decides; the state is unchanged.
pub open spec fn step_unify(m: Model, members: Seq<usize>) -> Result<Model, Fault> {
    match unify_spec(members, m.ledger.borrows, m.vars, m.scopes) {
        Ok(_) => Ok(m),
        Err(e) => Err(plain(e)),
    }
}

/// The state after operation `i` of the stream, or the fault it raises.
/// Only for a borrow does the rest of the stream matter: whether it is used
/// again decides whether it stays open.
pub open spec fn step(m: Model, ops: Seq<Entry>, i: usize) -> Result<Model, Fault> {
    match ops[i as int].op {
        Operation::Declare { name, class } => step_declare(m, name, class),
        Operation::MoveUse { var } => step_move(m, var, i),
        Operation::BorrowUse { kind, var } => step_borrow(
            m,
            kind,
            var,
            i,
            used_after(ops, i as int, m.ledger.borrows.len() as usize),
        ),
        Operation::UseBorrow { borrow } => step_use(m, borrow, i, used_after(ops, i as int, borrow)),
        Operation::Swap { a, b } => step_swap(m, a, b, i),
        Operation::ScopeBegin => step_begin(m),
        Operation::ScopeEnd => step_end(m, i),
        Operation::Unify { group } => step_unify(m, group.members@),
    }
}

/// The state after the first `n` operations, or the rejection of the first
/// operation among them that raises a fault.
pub open spec fn run(ops: Seq<Entry>, n: nat) -> Result<Model, Verdict>
    decreases n,
{
    if n == 0 {
        Ok(Model::initial())
    } else {
        match run(ops, (n - 1) as nat) {
            Err(v) => Err(v),
            Ok(m) => match step(m, ops, (n - 1) as usize) {
                Ok(next) => Ok(next),
                Err(f) => Err(
                    Verdict::Rejected {
                        op_index: (n - 1) as usize,
                        position: ops[n - 1].position,
                        reason: f.reason,
                        borrow: f.borrow,
                    },
                ),
            },
        }
    }
}

/// The verdict of a stream: accepted if no operation raises a fault,
/// otherwise the rejection of the first that does.
pub open spec fn verdict(ops: Seq<Entry>) -> Verdict {
    match run(ops, ops.len()) {
        Ok(_) => Verdict::Accepted,
        Err(v) => v,
    }
}

/// Once a prefix is rejected, every longer prefix is rejected the same way.
pub proof fn lemma_rejection_stands(ops: Seq<Entry>, k: nat, n: nat)
    requires
        k <= n,
        run(ops, k) is Err,
    ensures
        run(ops, n) == run(ops, k),
    decreases n,
{
    if k < n {
        lemma_rejection_stands(ops, k, (n - 1) as nat);
    }
}

} // verus!
