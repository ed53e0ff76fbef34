//! The value table: one record per declared variable, with its
//! classification and its current ownership state.
use vstd::prelude::*;
use crate::kinds::{BorrowKind, Classification, ErrorKind, OwnershipState};

verus! {

/// One declared variable.
#[derive(Clone, Copy, Debug, PartialEq, Eq)]
pub struct Variable {
    /// The interned identifier of the binding.
    pub name: u64,
    /// Whether a use by value duplicates or consumes the variable.
    pub class: Classification,
    /// The current ownership state.
    pub state: OwnershipState,
    /// The scope that declared the variable.
    pub scope: usize,
    /// The operation index at which the declaring scope closed, once it has.
    pub closed_at: Option<usize>,
}

impl Variable {
    /// The variable is within its extent at operation index `at`.
    pub open spec fn usable_at(self, at: usize) -> bool {
        self.closed_at matches Some(c) ==> at <= c
    }

    /// The binding still occupies its name: its scope is open and its value
    /// was not moved away.
    pub open spec fn live(self) -> bool {
        self.closed_at is None && !(self.state is MovedOut)
    }

    /// A record the table may hold: a shared count is at least one, and a
    /// copy-eligible variable is never moved out.
    pub open spec fn valid(self) -> bool {
        self.state.valid() && (self.class is Copy ==> !(self.state is MovedOut))
    }

    /// The same variable in another ownership state.
    pub open spec fn with_state(self, state: OwnershipState) -> Variable {
        Variable {
            name: self.name,
            class: self.class,
            state,
            scope: self.scope,
            closed_at: self.closed_at,
        }
    }

    /// The same variable, out of extent beyond `at` if `scope` declared it
    /// and it was still in extent.
    pub open spec fn retired(self, scope: usize, at: usize) -> Variable {
        if self.scope == scope && self.closed_at is None {
            Variable {
                name: self.name,
                class: self.class,
                state: self.state,
                scope: self.scope,
                closed_at: Some(at),
            }
        } else {
            self
        }
    }
}

/// The record of a new binding: owned, in extent.
pub open spec fn fresh(name: u64, class: Classification, scope: usize) -> Variable {
    Variable { name, class, state: OwnershipState::Owned, scope, closed_at: None }
}

/// Every record of the table is valid.
pub open spec fn table_wf(vars: Seq<Variable>) -> bool {
    forall|k: int| 0 <= k < vars.len() ==> (#[trigger] vars[k]).valid()
}

/// Some live binding of `name` was declared by `scope`.
pub open spec fn name_live_in(vars: Seq<Variable>, name: u64, scope: usize) -> bool {
    exists|k: int|
        #![trigger vars[k]]
        0 <= k < vars.len() && vars[k].live() && vars[k].name == name && vars[k].scope == scope
}

/// What reading variable `id` at operation index `at` yields.
pub open spec fn read_spec(vars: Seq<Variable>, id: usize, at: usize) -> Result<(), ErrorKind> {
    if id >= vars.len() {
        Err(ErrorKind::MalformedStream)
    } else if vars[id as int].state is MovedOut {
        Err(ErrorKind::UseAfterMove)
    } else if !vars[id as int].usable_at(at) {
        Err(ErrorKind::MalformedStream)
    } else {
        Ok(())
    }
}

/// The table after a use by value of variable `id` at `at`, or the reason
/// the use is refused.
pub open spec fn move_out_spec(vars: Seq<Variable>, id: usize, at: usize) -> Result<
    Seq<Variable>,
    ErrorKind,
> {
    match read_spec(vars, id, at) {
        Err(e) => Err(e),
        Ok(_) => if vars[id as int].class is Copy {
            Ok(vars)
        } else if vars[id as int].state.is_borrowed() {
            Err(ErrorKind::CannotMoveWhileBorrowed)
        } else {
            Ok(vars.update(id as int, vars[id as int].with_state(OwnershipState::MovedOut)))
        },
    }
}

/// The state of a variable once one more borrow of `kind` is active, if
/// the exclusion rule admits that borrow and the count of shared borrows
/// can still grow.
pub open spec fn lent(state: OwnershipState, kind: BorrowKind) -> Option<OwnershipState> {
    match (state, kind) {
        (OwnershipState::Owned, BorrowKind::Shared) => Some(OwnershipState::BorrowedShared(1)),
        (OwnershipState::BorrowedShared(n), BorrowKind::Shared) => if n < usize::MAX {
            Some(OwnershipState::BorrowedShared((n + 1) as usize))
        } else {
            None
        },
        (OwnershipState::Owned, BorrowKind::Exclusive) => Some(OwnershipState::BorrowedExclusive),
        _ => None,
    }
}

/// The state of a variable once one active borrow of `kind` has ended, if
/// the state records such a borrow.
pub open spec fn released(state: OwnershipState, kind: BorrowKind) -> Option<OwnershipState> {
    match (state, kind) {
        (OwnershipState::BorrowedShared(n), BorrowKind::Shared) => Some(
            if n > 1 {
                OwnershipState::BorrowedShared((n - 1) as usize)
            } else {
                OwnershipState::Owned
            },
        ),
        (OwnershipState::BorrowedExclusive, BorrowKind::Exclusive) => Some(OwnershipState::Owned),
        _ => None,
    }
}

/// The table after a borrow of `kind` on variable `id` became active at
/// `at`, or the reason it cannot.
pub open spec fn lend_spec(vars: Seq<Variable>, id: usize, kind: BorrowKind, at: usize) -> Result<
    Seq<Variable>,
    ErrorKind,
> {
    match read_spec(vars, id, at) {
        Err(e) => Err(e),
        Ok(_) => match lent(vars[id as int].state, kind) {
            Some(s) => Ok(vars.update(id as int, vars[id as int].with_state(s))),
            None => Err(ErrorKind::ConflictingBorrow),
        },
    }
}

/// The table after an active borrow of `kind` on variable `id` ended, or
/// `MalformedStream` if the table records no such borrow.
pub open spec fn release_spec(vars: Seq<Variable>, id: usize, kind: BorrowKind) -> Result<
    Seq<Variable>,
    ErrorKind,
> {
    if id >= vars.len() {
        Err(ErrorKind::MalformedStream)
    } else {
        match released(vars[id as int].state, kind) {
            Some(s) => Ok(vars.update(id as int, vars[id as int].with_state(s))),
            None => Err(ErrorKind::MalformedStream),
        }
    }
}

/// The table after the scope `scope` closed at `at`.
pub open spec fn retire_spec(vars: Seq<Variable>, scope: usize, at: usize) -> Seq<Variable> {
    Seq::new(vars.len(), |k: int| vars[k].retired(scope, at))
}

/// The value table. It exclusively owns the variable records; every other
/// component names a variable by its index here.
#[derive(Debug)]
pub struct ValueTable {
    vars: Vec<Variable>,
}

impl View for ValueTable {
    type V = Seq<Variable>;

    closed spec fn view(&self) -> Seq<Variable> {
        self.vars@
    }
}

impl ValueTable {
    /// The table's invariant.
    pub open spec fn wf(&self) -> bool {
        table_wf(self@)
    }

    /// An empty table.
    pub fn new() -> (t: ValueTable)
        ensures
            t@ == Seq::<Variable>::empty(),
            t.wf(),
    {
        ValueTable { vars: Vec::new() }
    }

    /// The number of variables declared so far.
    pub fn len(&self) -> (n: usize)
        ensures
            n == self@.len(),
    {
        self.vars.len()
    }

    /// The record of variable `id`, if it was declared.
    pub fn get(&self, id: usize) -> (r: Option<Variable>)
        ensures
            r == (if id < self@.len() {
                Some(self@[id as int])
            } else {
                None
            }),
    {
        if id < self.vars.len() {
            Some(self.vars[id])
        } else {
            None
        }
    }

    /// Binds `name` in `scope`. Refused with `DuplicateBinding` exactly when
    /// a live binding of the name already belongs to that scope; a binding
    /// of the same name in another scope is a distinct variable.
    pub fn declare(&mut self, name: u64, class: Classification, scope: usize) -> (r: Result<
        usize,
        ErrorKind,
    >)
        requires
            old(self).wf(),
        ensures
            final(self).wf(),
            match r {
                Ok(id) => {
                    &&& !name_live_in(old(self)@, name, scope)
                    &&& id == old(self)@.len()
                    &&& final(self)@ == old(self)@.push(fresh(name, class, scope))
                },
                Err(e) => {
                    &&& e == ErrorKind::DuplicateBinding
                    &&& name_live_in(old(self)@, name, scope)
                    &&& final(self)@ == old(self)@
                },
            },
    {
        let n = self.vars.len();
        let mut k: usize = 0;
        while k < n
            invariant
                k <= n,
                n == self.vars.len(),
                self.vars@ == old(self).vars@,
                table_wf(self.vars@),
                forall|j: int|
                    #![trigger self.vars@[j]]
                    0 <= j < k ==> !(self.vars@[j].live() && self.vars@[j].name == name
                        && self.vars@[j].scope == scope),
            decreases n - k,
        {
            let v = self.vars[k];
            let moved = match v.state {
                OwnershipState::MovedOut => true,
                _ => false,
            };
            if v.name == name && v.scope == scope && v.closed_at.is_none() && !moved {
                return Err(ErrorKind::DuplicateBinding);
            }
            k += 1;
        }
        self.vars.push(
            Variable { name, class, state: OwnershipState::Owned, scope, closed_at: None },
        );
        Ok(n)
    }

    /// Reads variable `id` at operation index `at`: refused with
    /// `UseAfterMove` if it was moved out, with `MalformedStream` if it was
    /// never declared or is out of extent at `at`.
    pub fn read(&self, id: usize, at: usize) -> (r: Result<(), ErrorKind>)
        ensures
            r == read_spec(self@, id, at),
    {
        if id >= self.vars.len() {
            return Err(ErrorKind::MalformedStream);
        }
        let v = self.vars[id];
        match v.state {
            OwnershipState::MovedOut => {
                return Err(ErrorKind::UseAfterMove);
            },
            _ => {},
        }
        match v.closed_at {
            Some(c) => {
                if at > c {
                    return Err(ErrorKind::MalformedStream);
                }
            },
            None => {},
        }
        Ok(())
    }

    /// Uses variable `id` by value at `at`. A copy-eligible variable is
    /// duplicated and keeps its state. Any other variable goes from `Owned`
    /// to `MovedOut`; the move is refused with `UseAfterMove` if it was
    /// already moved out and with `CannotMoveWhileBorrowed` if a borrow of
    /// it is active.
    pub fn move_out(&mut self, id: usize, at: usize) -> (r: Result<(), ErrorKind>)
        requires
            old(self).wf(),
        ensures
            final(self).wf(),
            match r {
                Ok(_) => move_out_spec(old(self)@, id, at) == Ok::<Seq<Variable>, ErrorKind>(
                    final(self)@,
                ),
                Err(e) => move_out_spec(old(self)@, id, at) == Err::<Seq<Variable>, ErrorKind>(e)
                    && final(self)@ == old(self)@,
            },
    {
        match self.read(id, at) {
            Err(e) => {
                return Err(e);
            },
            Ok(_) => {},
        }
        let v = self.vars[id];
        match v.class {
            Classification::Copy => {
                return Ok(());
            },
            Classification::Move => {},
        }
        match v.state {
            OwnershipState::BorrowedShared(_) => {
                return Err(ErrorKind::CannotMoveWhileBorrowed);
            },
            OwnershipState::BorrowedExclusive => {
                return Err(ErrorKind::CannotMoveWhileBorrowed);
            },
            _ => {},
        }
        self.vars.set(
            id,
            Variable {
                name: v.name,
                class: v.class,
                state: OwnershipState::MovedOut,
                scope: v.scope,
                closed_at: v.closed_at,
            },
        );
        Ok(())
    }

    /// Records that a borrow of `kind` on variable `id` became active at
    /// `at`. Refused as `read` refuses, and with `ConflictingBorrow` if the
    /// state of the variable excludes the borrow: an exclusive borrow of a
    /// borrowed variable, any borrow of an exclusively borrowed one, or a
    /// shared borrow beyond the largest count the state can hold.
    pub fn lend(&mut self, id: usize, kind: BorrowKind, at: usize) -> (r: Result<(), ErrorKind>)
        requires
            old(self).wf(),
        ensures
            final(self).wf(),
            match r {
                Ok(_) => lend_spec(old(self)@, id, kind, at) == Ok::<Seq<Variable>, ErrorKind>(
                    final(self)@,
                ),
                Err(e) => lend_spec(old(self)@, id, kind, at) == Err::<Seq<Variable>, ErrorKind>(e)
                    && final(self)@ == old(self)@,
            },
    {
        match self.read(id, at) {
            Err(e) => {
                return Err(e);
            },
            Ok(_) => {},
        }
        let v = self.vars[id];
        let next = match (v.state, kind) {
            (OwnershipState::Owned, BorrowKind::Shared) => OwnershipState::BorrowedShared(1),
            (OwnershipState::BorrowedShared(n), BorrowKind::Shared) => {
                if n < usize::MAX {
                    OwnershipState::BorrowedShared(n + 1)
                } else {
                    return Err(ErrorKind::ConflictingBorrow);
                }
            },
            (OwnershipState::Owned, BorrowKind::Exclusive) => OwnershipState::BorrowedExclusive,
            _ => {
                return Err(ErrorKind::ConflictingBorrow);
            },
        };
        self.vars.set(
            id,
            Variable {
                name: v.name,
                class: v.class,
                state: next,
                scope: v.scope,
                closed_at: v.closed_at,
            },
        );
        Ok(())
    }

    /// Records that an active borrow of `kind` on variable `id` ended.
    /// Refused with `MalformedStream` if the variable was never declared or
    /// its state records no active borrow of that kind.
    pub fn release(&mut self, id: usize, kind: BorrowKind) -> (r: Result<(), ErrorKind>)
        requires
            old(self).wf(),
        ensures
            final(self).wf(),
            match r {
                Ok(_) => release_spec(old(self)@, id, kind) == Ok::<Seq<Variable>, ErrorKind>(
                    final(self)@,
                ),
                Err(e) => release_spec(old(self)@, id, kind) == Err::<Seq<Variable>, ErrorKind>(e)
                    && final(self)@ == old(self)@,
            },
    {
        if id >= self.vars.len() {
            return Err(ErrorKind::MalformedStream);
        }
        let v = self.vars[id];
        let next = match (v.state, kind) {
            (OwnershipState::BorrowedShared(n), BorrowKind::Shared) => {
                if n > 1 {
                    OwnershipState::BorrowedShared(n - 1)
                } else {
                    OwnershipState::Owned
                }
            },
            (OwnershipState::BorrowedExclusive, BorrowKind::Exclusive) => OwnershipState::Owned,
            _ => {
                return Err(ErrorKind::MalformedStream);
            },
        };
        self.vars.set(
            id,
            Variable {
                name: v.name,
                class: v.class,
                state: next,
                scope: v.scope,
                closed_at: v.closed_at,
            },
        );
        Ok(())
    }

    /// Marks every variable that `scope` declared as out of extent beyond
    /// operation index `at`. A variable that was already out of extent keeps
    /// its mark.
    pub fn retire_scope(&mut self, scope: usize, at: usize)
        requires
            old(self).wf(),
        ensures
            final(self).wf(),
            final(self)@ == retire_spec(old(self)@, scope, at),
    {
        let n = self.vars.len();
        let mut k: usize = 0;
        while k < n
            invariant
                k <= n,
                n == self.vars.len(),
                n == old(self).vars@.len(),
                table_wf(self.vars@),
                forall|j: int|
                    0 <= j < k ==> #[trigger] self.vars@[j] == old(self).vars@[j].retired(
                        scope,
                        at,
                    ),
                forall|j: int| k <= j < n ==> #[trigger] self.vars@[j] == old(self).vars@[j],
            decreases n - k,
        {
            let v = self.vars[k];
            if v.scope == scope && v.closed_at.is_none() {
                self.vars.set(
                    k,
                    Variable {
                        name: v.name,
                        class: v.class,
                        state: v.state,
                        scope: v.scope,
                        closed_at: Some(at),
                    },
                );
            }
            k += 1;
        }
        assert(self.vars@ =~= retire_spec(old(self)@, scope, at));
    }
}

} // verus!
