//! The verification engine: it walks a stream in order, dispatches each
//! operation to the value table, the scope tree, the borrow ledger and the
//! lifetime solver, and stops at the first fault.
use vstd::prelude::*;
use crate::kinds::{BorrowKind, Classification, ErrorKind};
use crate::value_table::ValueTable;
use crate::borrow_ledger::BorrowLedger;
use crate::scope_tree::{first_outliving, ScopeTree};
use crate::lifetime::{unify, LifetimeGroup};
use crate::stream::{last_reference, last_references, lemma_last_reference, Entry, Operation};
use crate::model::{
    lemma_rejection_stands, run, step, step_begin, step_borrow, step_declare, step_end, step_move,
    step_swap, step_unify, step_use, verdict, Fault, Model, Verdict,
};

verus! {

/// The tables of one analysis run.
struct Engine {
    table: ValueTable,
    tree: ScopeTree,
    ledger: BorrowLedger,
    current: usize,
}

impl View for Engine {
    type V = Model;

    closed spec fn view(&self) -> Model {
        Model {
            vars: self.table@,
            scopes: self.tree@,
            ledger: self.ledger@,
            current: self.current,
        }
    }
}

/// The exit of a step agrees with what the model says of it.
spec fn agrees(r: Result<(), Fault>, expect: Result<Model, Fault>, after: Model) -> bool {
    match r {
        Ok(_) => expect == Ok::<Model, Fault>(after),
        Err(f) => expect == Err::<Model, Fault>(f),
    }
}

impl Engine {
    /// Each table satisfies its own invariant.
    spec fn wf(&self) -> bool {
        self.table.wf() && self.tree.wf() && self.ledger.wf()
    }

    /// The engine before the first operation.
    fn new() -> (e: Engine)
        ensures
            e.wf(),
            e@ == Model::initial(),
    {
        Engine {
            table: ValueTable::new(),
            tree: ScopeTree::new(),
            ledger: BorrowLedger::new(),
            current: 0,
        }
    }

    /// `Declare`: binds the name in the innermost open scope.
    fn declare(&mut self, name: u64, class: Classification) -> (r: Result<(), Fault>)
        requires
            old(self).wf(),
        ensures
            final(self).wf(),
            agrees(r, step_declare(old(self)@, name, class), final(self)@),
            final(self)@.ledger == old(self)@.ledger,
    {
        if !self.tree.is_open(self.current) {
            return Err(Fault { reason: ErrorKind::MalformedStream, borrow: None });
        }
        match self.table.declare(name, class, self.current) {
            Err(e) => Err(Fault { reason: e, borrow: None }),
            Ok(id) => {
                match self.tree.bind(self.current, id) {
                    Ok(_) => Ok(()),
                    Err(e) => Err(Fault { reason: e, borrow: None }),
                }
            },
        }
    }

    /// `MoveUse`: a use by value of `var`.
    fn move_use(&mut self, var: usize, i: usize) -> (r: Result<(), Fault>)
        requires
            old(self).wf(),
        ensures
            final(self).wf(),
            agrees(r, step_move(old(self)@, var, i), final(self)@),
            final(self)@.ledger == old(self)@.ledger,
    {
        match self.table.move_out(var, i) {
            Ok(_) => Ok(()),
            Err(e) => {
                let borrow = match e {
                    ErrorKind::CannotMoveWhileBorrowed => self.ledger.conflicting(
                        var,
                        BorrowKind::Exclusive,
                        i,
                    ),
                    _ => None,
                };
                Err(Fault { reason: e, borrow })
            },
        }
    }

    /// `BorrowUse`: creates a borrow, which stays open if it is `kept`,
    /// that is, used by a later operation.
    fn borrow_use(&mut self, kind: BorrowKind, var: usize, i: usize, kept: bool) -> (r: Result<
        (),
        Fault,
    >)
        requires
            old(self).wf(),
        ensures
            final(self).wf(),
            agrees(r, step_borrow(old(self)@, kind, var, i, kept), final(self)@),
            final(self)@.ledger.borrows.len() <= old(self)@.ledger.borrows.len() + 1,
    {
        match self.table.read(var, i) {
            Err(e) => {
                return Err(Fault { reason: e, borrow: None });
            },
            Ok(_) => {},
        }
        if i < self.ledger.clock() {
            return Err(Fault { reason: ErrorKind::StaleUse, borrow: None });
        }
        match self.ledger.conflicting(var, kind, i) {
            Some(b) => {
                return Err(Fault { reason: ErrorKind::ConflictingBorrow, borrow: Some(b) });
            },
            None => {},
        }
        if kept {
            match self.table.lend(var, kind, i) {
                Err(e) => {
                    return Err(Fault { reason: e, borrow: None });
                },
                Ok(_) => {},
            }
            match self.ledger.create_borrow(var, kind, i) {
                Ok(_) => Ok(()),
                Err(e) => Err(Fault { reason: e, borrow: None }),
            }
        } else {
            match self.ledger.create_borrow(var, kind, i) {
                Ok(id) => {
                    match self.ledger.finalize(id) {
                        Ok(_) => {
                            assert(self@.ledger.borrows =~= old(self)@.ledger.borrows.push(
                                crate::borrow_ledger::Borrow::opened(var, kind, i).locked(),
                            ));
                            Ok(())
                        },
                        Err(e) => Err(Fault { reason: e, borrow: None }),
                    }
                },
                Err(e) => Err(Fault { reason: e, borrow: None }),
            }
        }
    }

    /// `UseBorrow`: records the use; unless the borrow is `kept`, this was
    /// its last use and its interval is locked.
    fn use_borrow(&mut self, b: usize, i: usize, kept: bool) -> (r: Result<(), Fault>)
        requires
            old(self).wf(),
        ensures
            final(self).wf(),
            agrees(r, step_use(old(self)@, b, i, kept), final(self)@),
            final(self)@.ledger.borrows.len() == old(self)@.ledger.borrows.len(),
    {
        let known = b < self.ledger.len();
        match self.ledger.record_use(b, i) {
            Err(e) => {
                return Err(
                    Fault {
                        reason: e,
                        borrow: if known {
                            Some(b)
                        } else {
                            None
                        },
                    },
                );
            },
            Ok(_) => {},
        }
        if kept {
            return Ok(());
        }
        let rec = match self.ledger.get(b) {
            Some(rec) => rec,
            None => {
                return Err(Fault { reason: ErrorKind::MalformedStream, borrow: None });
            },
        };
        match self.table.release(rec.var, rec.kind) {
            Err(e) => Err(Fault { reason: e, borrow: Some(b) }),
            Ok(_) => {
                match self.ledger.finalize(b) {
                    Ok(_) => Ok(()),
                    Err(e) => Err(Fault { reason: e, borrow: None }),
                }
            },
        }
    }

    /// `Swap`: both variables are taken exclusively for this operation.
    fn swap(&self, a: usize, b: usize, i: usize) -> (r: Result<(), Fault>)
        ensures
            agrees(r, step_swap(self@, a, b, i), self@),
    {
        if !self.usable(a, i) || !self.usable(b, i) {
            return Err(Fault { reason: ErrorKind::MalformedStream, borrow: None });
        }
        if a == b {
            return Err(Fault { reason: ErrorKind::ConflictingBorrow, borrow: None });
        }
        match self.ledger.conflicting(a, BorrowKind::Exclusive, i) {
            Some(c) => {
                return Err(Fault { reason: ErrorKind::ConflictingBorrow, borrow: Some(c) });
            },
            None => {},
        }
        match self.ledger.conflicting(b, BorrowKind::Exclusive, i) {
            Some(c) => Err(Fault { reason: ErrorKind::ConflictingBorrow, borrow: Some(c) }),
            None => Ok(()),
        }
    }

    /// Whether variable `id` was declared and is in extent at `at`.
    fn usable(&self, id: usize, at: usize) -> (r: bool)
        ensures
            r == crate::model::var_usable(self@.vars, id, at),
    {
        match self.table.get(id) {
            None => false,
            Some(v) => match v.closed_at {
                Some(c) => at <= c,
                None => true,
            },
        }
    }

    /// `ScopeBegin`: opens a scope inside the innermost one.
    fn scope_begin(&mut self) -> (r: Result<(), Fault>)
        requires
            old(self).wf(),
        ensures
            final(self).wf(),
            agrees(r, step_begin(old(self)@), final(self)@),
            final(self)@.ledger == old(self)@.ledger,
    {
        match self.tree.open_scope(self.current) {
            Err(e) => Err(Fault { reason: e, borrow: None }),
            Ok(id) => {
                self.current = id;
                Ok(())
            },
        }
    }

    /// `ScopeEnd`: closes the innermost scope and returns to its parent.
    fn scope_end(&mut self, i: usize) -> (r: Result<(), Fault>)
        requires
            old(self).wf(),
        ensures
            final(self).wf(),
            agrees(r, step_end(old(self)@, i), final(self)@),
            final(self)@.ledger == old(self)@.ledger,
    {
        if self.current == 0 || !self.tree.is_open(self.current) {
            return Err(Fault { reason: ErrorKind::MalformedStream, borrow: None });
        }
        match first_outliving(&self.ledger, &self.table, self.current) {
            Some(b) => {
                return Err(Fault { reason: ErrorKind::BorrowOutlivesOwner, borrow: Some(b) });
            },
            None => {},
        }
        let parent = match self.tree.parent_of(self.current) {
            Some(p) => p,
            None => {
                return Err(Fault { reason: ErrorKind::MalformedStream, borrow: None });
            },
        };
        match self.tree.close_scope(self.current, i, &mut self.table, &self.ledger) {
            Err(e) => Err(Fault { reason: e, borrow: None }),
            Ok(_) => {
                self.current = parent;
                Ok(())
            },
        }
    }

    /// `Unify`: asks the lifetime solver.
    fn unify_group(&self, group: &LifetimeGroup) -> (r: Result<(), Fault>)
        ensures
            agrees(r, step_unify(self@, group.members@), self@),
    {
        match unify(group, &self.ledger, &self.table, &self.tree) {
            Ok(_) => Ok(()),
            Err(e) => Err(Fault { reason: e, borrow: None }),
        }
    }

    /// Processes operation `i`. `last` holds, for each borrow, the index of
    /// its last use.
    fn step(&mut self, ops: &Vec<Entry>, i: usize, last: &Vec<usize>) -> (r: Result<(), Fault>)
        requires
            old(self).wf(),
            i < ops@.len(),
            old(self)@.ledger.borrows.len() <= i,
            last@.len() == ops@.len(),
            forall|b: int|
                0 <= b < last@.len() ==> #[trigger] last@[b] == last_reference(
                    ops@,
                    b as usize,
                    ops@.len() as int,
                ),
        ensures
            final(self).wf(),
            agrees(r, step(old(self)@, ops@, i), final(self)@),
            final(self)@.ledger.borrows.len() <= old(self)@.ledger.borrows.len() + 1,
    {
        match &ops[i].op {
            Operation::Declare { name, class } => self.declare(*name, *class),
            Operation::MoveUse { var } => self.move_use(*var, i),
            Operation::BorrowUse { kind, var } => {
                let id = self.ledger.len();
                proof {
                    lemma_last_reference(ops@, id, ops@.len() as int, i as int);
                }
                let kept = last[id] > i;
                self.borrow_use(*kind, *var, i, kept)
            },
            Operation::UseBorrow { borrow } => {
                let b = *borrow;
                proof {
                    lemma_last_reference(ops@, b, ops@.len() as int, i as int);
                }
                let kept = b < last.len() && last[b] > i;
                self.use_borrow(b, i, kept)
            },
            Operation::Swap { a, b } => self.swap(*a, *b, i),
            Operation::ScopeBegin => self.scope_begin(),
            Operation::ScopeEnd => self.scope_end(i),
            Operation::Unify { group } => self.unify_group(group),
        }
    }
}

/// Decides whether a stream of operations is legal under the ownership
/// discipline. The operations are processed in the order given; the first
/// one that raises a fault is reported, with its source position, the
/// reason and, where a borrow stands in the way, that borrow.
pub fn verify(ops: &Vec<Entry>) -> (v: Verdict)
    ensures
        v == verdict(ops@),
{
    let last = last_references(ops);
    let mut engine = Engine::new();
    let n = ops.len();
    let mut i: usize = 0;
    while i < n
        invariant
            i <= n,
            n == ops@.len(),
            engine.wf(),
            engine@.ledger.borrows.len() <= i,
            run(ops@, i as nat) == Ok::<Model, Verdict>(engine@),
            last@.len() == ops@.len(),
            forall|b: int|
                0 <= b < last@.len() ==> #[trigger] last@[b] == last_reference(
                    ops@,
                    b as usize,
                    ops@.len() as int,
                ),
        decreases n - i,
    {
        match engine.step(ops, i, &last) {
            Ok(_) => {},
            Err(f) => {
                proof {
                    lemma_rejection_stands(ops@, (i + 1) as nat, n as nat);
                }
                return Verdict::Rejected {
                    op_index: i,
                    position: ops[i].position,
                    reason: f.reason,
                    borrow: f.borrow,
                };
            },
        }
        i += 1;
    }
    Verdict::Accepted
}

} // verus!
