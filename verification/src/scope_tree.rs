//! The scope tree: nested lexical scopes, each with the variables it
//! declared and the scopes opened directly inside it.
use vstd::prelude::*;
use crate::kinds::ErrorKind;
use crate::value_table::{retire_spec, ValueTable, Variable};
use crate::borrow_ledger::{Borrow, BorrowLedger};

verus! {

/// One lexical scope.
#[derive(Debug)]
pub struct Scope {
    /// The enclosing scope; the root has none.
    pub parent: Option<usize>,
    /// The variables declared directly in this scope, in declaration order.
    pub vars: Vec<usize>,
    /// The scopes opened directly inside this one, in opening order.
    pub children: Vec<usize>,
    /// The operation index at which the scope closed, once it has.
    pub closed_at: Option<usize>,
}

/// What a scope holds.
pub struct ScopeView {
    /// The enclosing scope; the root has none.
    pub parent: Option<usize>,
    /// The variables declared directly in the scope, in declaration order.
    pub vars: Seq<usize>,
    /// The scopes opened directly inside it, in opening order.
    pub children: Seq<usize>,
    /// The operation index at which the scope closed, once it has.
    pub closed_at: Option<usize>,
}

impl View for Scope {
    type V = ScopeView;

    open spec fn view(&self) -> ScopeView {
        ScopeView {
            parent: self.parent,
            vars: self.vars@,
            children: self.children@,
            closed_at: self.closed_at,
        }
    }
}

impl ScopeView {
    /// The root scope: open, empty, without a parent.
    pub open spec fn root() -> ScopeView {
        ScopeView { parent: None, vars: Seq::empty(), children: Seq::empty(), closed_at: None }
    }

    /// A scope newly opened inside `parent`.
    pub open spec fn inside(parent: usize) -> ScopeView {
        ScopeView {
            parent: Some(parent),
            vars: Seq::empty(),
            children: Seq::empty(),
            closed_at: None,
        }
    }

    /// The same scope with one more child.
    pub open spec fn adopting(self, child: usize) -> ScopeView {
        ScopeView {
            parent: self.parent,
            vars: self.vars,
            children: self.children.push(child),
            closed_at: self.closed_at,
        }
    }

    /// The same scope with one more variable.
    pub open spec fn binding(self, var: usize) -> ScopeView {
        ScopeView {
            parent: self.parent,
            vars: self.vars.push(var),
            children: self.children,
            closed_at: self.closed_at,
        }
    }

    /// The same scope, closed at `at`.
    pub open spec fn closing(self, at: usize) -> ScopeView {
        ScopeView {
            parent: self.parent,
            vars: self.vars,
            children: self.children,
            closed_at: Some(at),
        }
    }
}

/// The tree's invariant: scope 0 is the root; every other scope has a
/// parent that was opened before it; and the child lists say the same as
/// the parent links.
pub open spec fn tree_wf(scopes: Seq<ScopeView>) -> bool {
    &&& scopes.len() >= 1
    &&& scopes[0].parent is None
    &&& forall|s: int|
        1 <= s < scopes.len() ==> ((#[trigger] scopes[s]).parent matches Some(p) && p < s)
    &&& forall|p: int, k: int|
        0 <= p < scopes.len() && 0 <= k < scopes[p].children.len() ==> {
            let c = #[trigger] scopes[p].children[k];
            p < c < scopes.len() && scopes[c as int].parent == Some(p as usize)
        }
    &&& forall|c: int|
        1 <= c < scopes.len() ==> ((#[trigger] scopes[c]).parent matches Some(p) && scopes[p as int].children.contains(
            c as usize,
        ))
}

/// Scope `id` exists and has not closed.
pub open spec fn scope_open(scopes: Seq<ScopeView>, id: usize) -> bool {
    id < scopes.len() && scopes[id as int].closed_at is None
}

/// Scope `a` encloses scope `b`: it is `b` itself or one of its ancestors.
pub open spec fn encloses(scopes: Seq<ScopeView>, a: usize, b: usize) -> bool
    decreases b,
{
    if b >= scopes.len() {
        false
    } else if a == b {
        true
    } else {
        match scopes[b as int].parent {
            Some(p) => if p < b {
                encloses(scopes, a, p)
            } else {
                false
            },
            None => false,
        }
    }
}

/// One of the two scopes encloses the other.
pub open spec fn related(scopes: Seq<ScopeView>, a: usize, b: usize) -> bool {
    encloses(scopes, a, b) || encloses(scopes, b, a)
}

/// The tree after a scope is opened inside `parent`.
pub open spec fn open_spec(scopes: Seq<ScopeView>, parent: usize) -> Result<
    Seq<ScopeView>,
    ErrorKind,
> {
    if !scope_open(scopes, parent) {
        Err(ErrorKind::MalformedStream)
    } else {
        Ok(
            scopes.update(parent as int, scopes[parent as int].adopting(scopes.len() as usize)).push(
                ScopeView::inside(parent),
            ),
        )
    }
}

/// The tree after scope `id` is closed at `at`.
pub open spec fn close_spec(scopes: Seq<ScopeView>, id: usize, at: usize) -> Result<
    Seq<ScopeView>,
    ErrorKind,
> {
    if !scope_open(scopes, id) {
        Err(ErrorKind::MalformedStream)
    } else {
        Ok(scopes.update(id as int, scopes[id as int].closing(at)))
    }
}

/// The borrow is still open, so it is used after this point, and its
/// variable was declared by `scope`.
pub open spec fn outlives(b: Borrow, vars: Seq<Variable>, scope: usize) -> bool {
    !b.finalized && b.var < vars.len() && vars[b.var as int].scope == scope
}

/// The least index from `from` on of an open borrow whose variable was
/// declared by `scope`.
pub open spec fn first_outliving_from(
    borrows: Seq<Borrow>,
    vars: Seq<Variable>,
    scope: usize,
    from: int,
) -> Option<usize>
    decreases borrows.len() - from,
{
    if from < 0 || from >= borrows.len() {
        None
    } else if outlives(borrows[from], vars, scope) {
        Some(from as usize)
    } else {
        first_outliving_from(borrows, vars, scope, from + 1)
    }
}

/// `first_outliving_from` finds an open borrow of a variable of `scope` at
/// or after `from`, and the least one.
pub proof fn lemma_first_outliving_from(
    borrows: Seq<Borrow>,
    vars: Seq<Variable>,
    scope: usize,
    from: int,
)
    requires
        0 <= from,
        borrows.len() <= usize::MAX,
    ensures
        match first_outliving_from(borrows, vars, scope, from) {
            Some(b) => {
                &&& from <= b < borrows.len()
                &&& outlives(borrows[b as int], vars, scope)
                &&& forall|j: int| from <= j < b ==> !outlives(#[trigger] borrows[j], vars, scope)
            },
            None => forall|j: int|
                from <= j < borrows.len() ==> !outlives(#[trigger] borrows[j], vars, scope),
        },
    decreases borrows.len() - from,
{
    if from < borrows.len() && !outlives(borrows[from], vars, scope) {
        lemma_first_outliving_from(borrows, vars, scope, from + 1);
    }
}

/// The tree and the value table after scope `id` is closed at `at`, or the
/// reason it cannot be: the scope is not open, or a borrow of one of its
/// variables is still open and so would be used after the close.
pub open spec fn close_scope_spec(
    scopes: Seq<ScopeView>,
    vars: Seq<Variable>,
    borrows: Seq<Borrow>,
    id: usize,
    at: usize,
) -> Result<(Seq<ScopeView>, Seq<Variable>), ErrorKind> {
    if !scope_open(scopes, id) {
        Err(ErrorKind::MalformedStream)
    } else if first_outliving_from(borrows, vars, id, 0) is Some {
        Err(ErrorKind::BorrowOutlivesOwner)
    } else {
        Ok((scopes.update(id as int, scopes[id as int].closing(at)), retire_spec(vars, id, at)))
    }
}

/// The tree after variable `var` is declared in scope `id`.
pub open spec fn bind_spec(scopes: Seq<ScopeView>, id: usize, var: usize) -> Result<
    Seq<ScopeView>,
    ErrorKind,
> {
    if !scope_open(scopes, id) {
        Err(ErrorKind::MalformedStream)
    } else {
        Ok(scopes.update(id as int, scopes[id as int].binding(var)))
    }
}

/// Scope `s` and every scope that encloses it are open.
pub open spec fn open_chain(scopes: Seq<ScopeView>, s: usize) -> bool
    decreases s,
{
    scope_open(scopes, s) && match scopes[s as int].parent {
        Some(p) => if p < s {
            open_chain(scopes, p)
        } else {
            false
        },
        None => true,
    }
}

/// Whether a scope and its ancestors are open depends only on the parent
/// links and the closing marks of the scopes up to it.
pub proof fn lemma_open_chain_frame(a: Seq<ScopeView>, b: Seq<ScopeView>, s: usize)
    requires
        s < a.len(),
        s < b.len(),
        forall|k: int|
            0 <= k <= s ==> (#[trigger] a[k]).parent == b[k].parent && a[k].closed_at
                == b[k].closed_at,
    ensures
        open_chain(a, s) == open_chain(b, s),
    decreases s,
{
    assert(a[s as int].parent == b[s as int].parent);
    match a[s as int].parent {
        Some(p) => {
            if p < s {
                lemma_open_chain_frame(a, b, p);
            }
        },
        None => {},
    }
}

/// Opening a scope keeps the tree's invariant.
pub proof fn lemma_open_keeps_wf(scopes: Seq<ScopeView>, parent: usize)
    requires
        tree_wf(scopes),
        scopes.len() <= usize::MAX,
        open_spec(scopes, parent) is Ok,
    ensures
        tree_wf(open_spec(scopes, parent)->Ok_0),
{
    let after = open_spec(scopes, parent)->Ok_0;
    assert forall|c: int| 1 <= c < after.len() implies ((#[trigger] after[c]).parent matches Some(
        p,
    ) && after[p as int].children.contains(c as usize)) by {
        if c < scopes.len() {
            let p = scopes[c].parent->Some_0;
            let k = choose|k: int|
                0 <= k < scopes[p as int].children.len() && scopes[p as int].children[k]
                    == c as usize;
            assert(after[p as int].children[k] == c as usize);
        } else {
            let last = after[parent as int].children.len() - 1;
            assert(after[parent as int].children[last] == c as usize);
        }
    }
    assert forall|p: int, k: int|
        0 <= p < after.len() && 0 <= k < after[p].children.len() implies {
        let c = #[trigger] after[p].children[k];
        p < c < after.len() && after[c as int].parent == Some(p as usize)
    } by {
        if p == parent && k == scopes[p].children.len() {
        } else {
            assert(after[p].children[k] == scopes[p].children[k]);
        }
    }
}

/// Closing a scope keeps the tree's invariant.
pub proof fn lemma_close_keeps_wf(scopes: Seq<ScopeView>, id: usize, at: usize)
    requires
        tree_wf(scopes),
        close_spec(scopes, id, at) is Ok,
    ensures
        tree_wf(close_spec(scopes, id, at)->Ok_0),
{
    let after = close_spec(scopes, id, at)->Ok_0;
    assert forall|p: int, k: int|
        0 <= p < after.len() && 0 <= k < after[p].children.len() implies {
        let c = #[trigger] after[p].children[k];
        p < c < after.len() && after[c as int].parent == Some(p as usize)
    } by {
        assert(after[p].children[k] == scopes[p].children[k]);
    }
    assert forall|c: int| 1 <= c < after.len() implies ((#[trigger] after[c]).parent matches Some(
        p,
    ) && after[p as int].children.contains(c as usize)) by {
        let p = scopes[c].parent->Some_0;
        assert(after[p as int].children == scopes[p as int].children);
    }
}

/// Declaring a variable in a scope keeps the tree's invariant.
pub proof fn lemma_bind_keeps_wf(scopes: Seq<ScopeView>, id: usize, var: usize)
    requires
        tree_wf(scopes),
        bind_spec(scopes, id, var) is Ok,
    ensures
        tree_wf(bind_spec(scopes, id, var)->Ok_0),
{
    let after = bind_spec(scopes, id, var)->Ok_0;
    assert forall|p: int, k: int|
        0 <= p < after.len() && 0 <= k < after[p].children.len() implies {
        let c = #[trigger] after[p].children[k];
        p < c < after.len() && after[c as int].parent == Some(p as usize)
    } by {
        assert(after[p].children[k] == scopes[p].children[k]);
    }
    assert forall|c: int| 1 <= c < after.len() implies ((#[trigger] after[c]).parent matches Some(
        p,
    ) && after[p as int].children.contains(c as usize)) by {
        let p = scopes[c].parent->Some_0;
        assert(after[p as int].children == scopes[p as int].children);
    }
}

/// The scope tree. It owns the parent and child structure; a variable
/// refers to its scope by index only.
#[derive(Debug)]
pub struct ScopeTree {
    scopes: Vec<Scope>,
}

impl View for ScopeTree {
    type V = Seq<ScopeView>;

    closed spec fn view(&self) -> Seq<ScopeView> {
        Seq::new(self.scopes@.len(), |k: int| self.scopes@[k]@)
    }
}

impl ScopeTree {
    /// The tree's invariant.
    pub open spec fn wf(&self) -> bool {
        tree_wf(self@)
    }

    /// A tree that holds the open root scope, scope 0, and nothing else.
    pub fn new() -> (t: ScopeTree)
        ensures
            t@ == seq![ScopeView::root()],
            t.wf(),
    {
        let mut scopes: Vec<Scope> = Vec::new();
        scopes.push(Scope { parent: None, vars: Vec::new(), children: Vec::new(), closed_at: None });
        let t = ScopeTree { scopes };
        assert(t@ =~~= seq![ScopeView::root()]);
        t
    }

    /// The number of scopes opened so far, the root included.
    pub fn len(&self) -> (n: usize)
        ensures
            n == self@.len(),
    {
        self.scopes.len()
    }

    /// The scope that encloses `id` directly. The root and a scope that was
    /// never opened have none.
    pub fn parent_of(&self, id: usize) -> (r: Option<usize>)
        ensures
            r == (if id < self@.len() {
                self@[id as int].parent
            } else {
                None
            }),
    {
        if id < self.scopes.len() {
            self.scopes[id].parent
        } else {
            None
        }
    }

    /// Whether scope `id` exists and has not closed.
    pub fn is_open(&self, id: usize) -> (r: bool)
        ensures
            r == scope_open(self@, id),
    {
        id < self.scopes.len() && self.scopes[id].closed_at.is_none()
    }

    /// The operation index at which scope `id` closed, if it has.
    pub fn closed_at(&self, id: usize) -> (r: Option<usize>)
        ensures
            r == (if id < self@.len() {
                self@[id as int].closed_at
            } else {
                None
            }),
    {
        if id < self.scopes.len() {
            self.scopes[id].closed_at
        } else {
            None
        }
    }

    /// The variables declared directly in scope `id`, in declaration order.
    pub fn vars_of(&self, id: usize) -> (r: Option<&Vec<usize>>)
        ensures
            match r {
                Some(v) => id < self@.len() && v@ == self@[id as int].vars,
                None => id >= self@.len(),
            },
    {
        if id < self.scopes.len() {
            Some(&self.scopes[id].vars)
        } else {
            None
        }
    }

    /// The scopes opened directly inside scope `id`, in opening order.
    pub fn children_of(&self, id: usize) -> (r: Option<&Vec<usize>>)
        ensures
            match r {
                Some(v) => id < self@.len() && v@ == self@[id as int].children,
                None => id >= self@.len(),
            },
    {
        if id < self.scopes.len() {
            Some(&self.scopes[id].children)
        } else {
            None
        }
    }

    /// Opens a new scope inside `parent` and returns its id, the next free
    /// index. Refused with `MalformedStream` if `parent` does not exist or
    /// has closed.
    pub fn open_scope(&mut self, parent: usize) -> (r: Result<usize, ErrorKind>)
        requires
            old(self).wf(),
        ensures
            final(self).wf(),
            match r {
                Ok(id) => id == old(self)@.len() && open_spec(old(self)@, parent) == Ok::<
                    Seq<ScopeView>,
                    ErrorKind,
                >(final(self)@),
                Err(e) => open_spec(old(self)@, parent) == Err::<Seq<ScopeView>, ErrorKind>(e)
                    && final(self)@ == old(self)@,
            },
    {
        let n = self.scopes.len();
        if parent >= n {
            return Err(ErrorKind::MalformedStream);
        }
        if self.scopes[parent].closed_at.is_some() {
            return Err(ErrorKind::MalformedStream);
        }
        self.scopes[parent].children.push(n);
        self.scopes.push(
            Scope { parent: Some(parent), vars: Vec::new(), children: Vec::new(), closed_at: None },
        );
        proof {
            let before = old(self)@;
            let after = open_spec(before, parent)->Ok_0;
            assert(self@ =~~= after);
            assert forall|c: int| 1 <= c < after.len() implies ((#[trigger] after[c]).parent matches Some(
                p,
            ) && after[p as int].children.contains(c as usize)) by {
                if c < before.len() {
                    let p = before[c].parent->Some_0;
                    let k = choose|k: int|
                        0 <= k < before[p as int].children.len() && before[p as int].children[k]
                            == c as usize;
                    assert(after[p as int].children[k] == c as usize);
                } else {
                    let last = after[parent as int].children.len() - 1;
                    assert(after[parent as int].children[last] == c as usize);
                }
            }
        }
        Ok(n)
    }

    /// Closes scope `id` at operation index `at`, and marks the variables
    /// it declared as out of extent beyond `at`. Refused with
    /// `MalformedStream` if the scope does not exist or has already closed,
    /// and with `BorrowOutlivesOwner` if a borrow of one of its variables is
    /// still open: its last use would come after the close.
    pub fn close_scope(
        &mut self,
        id: usize,
        at: usize,
        table: &mut ValueTable,
        ledger: &BorrowLedger,
    ) -> (r: Result<(), ErrorKind>)
        requires
            old(self).wf(),
            old(table).wf(),
        ensures
            final(self).wf(),
            final(table).wf(),
            match r {
                Ok(_) => close_scope_spec(old(self)@, old(table)@, ledger@.borrows, id, at) == Ok::<
                    (Seq<ScopeView>, Seq<Variable>),
                    ErrorKind,
                >((final(self)@, final(table)@)),
                Err(e) => close_scope_spec(old(self)@, old(table)@, ledger@.borrows, id, at)
                    == Err::<(Seq<ScopeView>, Seq<Variable>), ErrorKind>(e) && final(self)@ == old(
                    self,
                )@ && final(table)@ == old(table)@,
            },
    {
        if id >= self.scopes.len() {
            return Err(ErrorKind::MalformedStream);
        }
        if self.scopes[id].closed_at.is_some() {
            return Err(ErrorKind::MalformedStream);
        }
        if first_outliving(ledger, table, id).is_some() {
            return Err(ErrorKind::BorrowOutlivesOwner);
        }
        self.scopes[id].closed_at = Some(at);
        table.retire_scope(id, at);
        proof {
            assert(self@ =~~= close_spec(old(self)@, id, at)->Ok_0);
            lemma_close_keeps_wf(old(self)@, id, at);
        }
        Ok(())
    }

    /// Appends variable `var` to the variables of scope `id`. Refused with
    /// `MalformedStream` if the scope does not exist or has closed.
    pub fn bind(&mut self, id: usize, var: usize) -> (r: Result<(), ErrorKind>)
        requires
            old(self).wf(),
        ensures
            final(self).wf(),
            match r {
                Ok(_) => bind_spec(old(self)@, id, var) == Ok::<Seq<ScopeView>, ErrorKind>(
                    final(self)@,
                ),
                Err(e) => bind_spec(old(self)@, id, var) == Err::<Seq<ScopeView>, ErrorKind>(e)
                    && final(self)@ == old(self)@,
            },
    {
        if id >= self.scopes.len() {
            return Err(ErrorKind::MalformedStream);
        }
        if self.scopes[id].closed_at.is_some() {
            return Err(ErrorKind::MalformedStream);
        }
        self.scopes[id].vars.push(var);
        proof {
            assert(self@ =~~= bind_spec(old(self)@, id, var)->Ok_0);
        }
        Ok(())
    }

    /// Whether scope `a` encloses scope `b`: `a` is `b` or an ancestor of
    /// `b`. False if either scope does not exist.
    pub fn is_ancestor(&self, a: usize, b: usize) -> (r: bool)
        ensures
            r == encloses(self@, a, b),
    {
        let n = self.scopes.len();
        let mut cur = b;
        loop
            invariant
                n == self.scopes@.len(),
                encloses(self@, a, b) == encloses(self@, a, cur),
            decreases cur,
        {
            if cur >= n {
                return false;
            }
            if cur == a {
                return true;
            }
            match self.scopes[cur].parent {
                Some(p) => {
                    if p < cur {
                        cur = p;
                    } else {
                        return false;
                    }
                },
                None => {
                    return false;
                },
            }
        }
    }
}

/// The earliest-created borrow that is still open and whose variable was
/// declared by `scope`, if there is one.
pub fn first_outliving(ledger: &BorrowLedger, table: &ValueTable, scope: usize) -> (r: Option<usize>)
    ensures
        r == first_outliving_from(ledger@.borrows, table@, scope, 0),
{
    let n = ledger.len();
    let mut k: usize = 0;
    while k < n
        invariant
            k <= n,
            n == ledger@.borrows.len(),
            first_outliving_from(ledger@.borrows, table@, scope, 0) == first_outliving_from(
                ledger@.borrows,
                table@,
                scope,
                k as int,
            ),
        decreases n - k,
    {
        let rec = ledger.get(k).unwrap();
        if !rec.finalized {
            match table.get(rec.var) {
                Some(v) => {
                    if v.scope == scope {
                        return Some(k);
                    }
                },
                None => {},
            }
        }
        k += 1;
    }
    None
}

} // verus!
