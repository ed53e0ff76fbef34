//! The lifetime solver: borrows that must share one lifetime are unified
//! into the intersection of their extents.
use vstd::prelude::*;
use crate::kinds::ErrorKind;
use crate::value_table::{ValueTable, Variable};
use crate::borrow_ledger::{Borrow, BorrowLedger};
use crate::scope_tree::{related, ScopeTree, ScopeView};

verus! {

/// A closed interval of operation indices.
#[derive(Clone, Copy, Debug, PartialEq, Eq)]
pub struct Interval {
    /// The first index of the interval.
    pub start: usize,
    /// The last index of the interval.
    pub end: usize,
}

/// Borrows that must resolve to one common interval, such as the reference
/// fields of one aggregate that share a lifetime parameter. Only the set
/// of members matters.
#[derive(Debug, PartialEq, Eq)]
pub struct LifetimeGroup {
    /// The borrows of the group, by their index in the ledger.
    pub members: Vec<usize>,
}

/// Borrow `m` exists, and so do its variable and the scope of that variable.
pub open spec fn member_known(
    m: usize,
    borrows: Seq<Borrow>,
    vars: Seq<Variable>,
    scopes: Seq<ScopeView>,
) -> bool {
    &&& m < borrows.len()
    &&& borrows[m as int].var < vars.len()
    &&& vars[borrows[m as int].var as int].scope < scopes.len()
}

/// The scope that declared the variable of borrow `m`.
pub open spec fn scope_of(m: usize, borrows: Seq<Borrow>, vars: Seq<Variable>) -> usize {
    vars[borrows[m as int].var as int].scope
}

/// Where the extent of a borrow ends: at its last use once the interval is
/// locked; until then at the close of its variable's scope, or nowhere
/// while that scope is open.
pub open spec fn extent_end(b: Borrow, vars: Seq<Variable>) -> usize {
    if b.finalized {
        b.end
    } else {
        match vars[b.var as int].closed_at {
            Some(c) => c,
            None => usize::MAX,
        }
    }
}

/// The latest start among the members; 0 for no members.
pub open spec fn latest_start(ms: Seq<usize>, borrows: Seq<Borrow>) -> usize
    decreases ms.len(),
{
    if ms.len() == 0 {
        0
    } else {
        let rest = latest_start(ms.drop_last(), borrows);
        let s = borrows[ms.last() as int].start;
        if s > rest {
            s
        } else {
            rest
        }
    }
}

/// The earliest extent end among the members; `usize::MAX` for no members.
pub open spec fn earliest_end(ms: Seq<usize>, borrows: Seq<Borrow>, vars: Seq<Variable>) -> usize
    decreases ms.len(),
{
    if ms.len() == 0 {
        usize::MAX
    } else {
        let rest = earliest_end(ms.drop_last(), borrows, vars);
        let e = extent_end(borrows[ms.last() as int], vars);
        if e < rest {
            e
        } else {
            rest
        }
    }
}

/// Every member is known.
pub open spec fn members_known(
    ms: Seq<usize>,
    borrows: Seq<Borrow>,
    vars: Seq<Variable>,
    scopes: Seq<ScopeView>,
) -> bool {
    forall|k: int| 0 <= k < ms.len() ==> member_known(#[trigger] ms[k], borrows, vars, scopes)
}

/// The variables of any two members were declared in scopes of which one
/// encloses the other.
pub open spec fn scopes_related(
    ms: Seq<usize>,
    borrows: Seq<Borrow>,
    vars: Seq<Variable>,
    scopes: Seq<ScopeView>,
) -> bool {
    forall|i: int, j: int|
        #![trigger ms[i], ms[j]]
        0 <= i < j < ms.len() ==> related(
            scopes,
            scope_of(ms[i], borrows, vars),
            scope_of(ms[j], borrows, vars),
        )
}

/// The common interval of the members, or the reason there is none.
pub open spec fn unify_spec(
    ms: Seq<usize>,
    borrows: Seq<Borrow>,
    vars: Seq<Variable>,
    scopes: Seq<ScopeView>,
) -> Result<Interval, ErrorKind> {
    if !members_known(ms, borrows, vars, scopes) {
        Err(ErrorKind::MalformedStream)
    } else if !scopes_related(ms, borrows, vars, scopes) || latest_start(ms, borrows)
        > earliest_end(ms, borrows, vars) {
        Err(ErrorKind::LifetimeConflict)
    } else {
        Ok(Interval { start: latest_start(ms, borrows), end: earliest_end(ms, borrows, vars) })
    }
}

/// The unified lifetime is the intersection of the extents: it starts no
/// earlier than any member and ends no later than any member's extent, and
/// a group that has members takes its start and its end from members.
pub proof fn law_unified_is_intersection(ms: Seq<usize>, borrows: Seq<Borrow>, vars: Seq<Variable>)
    ensures
        forall|k: int|
            0 <= k < ms.len() ==> borrows[(#[trigger] ms[k]) as int].start <= latest_start(
                ms,
                borrows,
            ),
        forall|k: int|
            0 <= k < ms.len() ==> earliest_end(ms, borrows, vars) <= extent_end(
                borrows[(#[trigger] ms[k]) as int],
                vars,
            ),
        ms.len() > 0 ==> exists|k: int|
            0 <= k < ms.len() && borrows[(#[trigger] ms[k]) as int].start == latest_start(
                ms,
                borrows,
            ),
        ms.len() > 0 ==> exists|k: int|
            0 <= k < ms.len() && extent_end(borrows[(#[trigger] ms[k]) as int], vars)
                == earliest_end(ms, borrows, vars),
    decreases ms.len(),
{
    if ms.len() > 0 {
        let rest = ms.drop_last();
        law_unified_is_intersection(rest, borrows, vars);
        let n = ms.len() - 1;
        assert forall|k: int| 0 <= k < ms.len() implies borrows[(#[trigger] ms[k]) as int].start
            <= latest_start(ms, borrows) by {
            if k < n {
                assert(rest[k] == ms[k]);
            }
        }
        assert forall|k: int| 0 <= k < ms.len() implies earliest_end(ms, borrows, vars)
            <= extent_end(borrows[(#[trigger] ms[k]) as int], vars) by {
            if k < n {
                assert(rest[k] == ms[k]);
            }
        }
        if borrows[ms[n] as int].start == latest_start(ms, borrows) {
        } else {
            let k = choose|k: int|
                0 <= k < rest.len() && borrows[(#[trigger] rest[k]) as int].start == latest_start(
                    rest,
                    borrows,
                );
            assert(rest[k] == ms[k]);
        }
        if extent_end(borrows[ms[n] as int], vars) == earliest_end(ms, borrows, vars) {
        } else {
            let k = choose|k: int|
                0 <= k < rest.len() && extent_end(borrows[(#[trigger] rest[k]) as int], vars)
                    == earliest_end(rest, borrows, vars);
            assert(rest[k] == ms[k]);
        }
    }
}

/// Unifies the members of `group` into one interval: the intersection of
/// their extents. Refused with `MalformedStream` if a member, its variable
/// or that variable's scope does not exist; with `LifetimeConflict` if the
/// variables of two members were declared in scopes neither of which
/// encloses the other, or if the intersection is empty.
pub fn unify(
    group: &LifetimeGroup,
    ledger: &BorrowLedger,
    table: &ValueTable,
    tree: &ScopeTree,
) -> (r: Result<Interval, ErrorKind>)
    ensures
        r == unify_spec(group.members@, ledger@.borrows, table@, tree@),
{
    let n = group.members.len();
    let ghost borrows = ledger@.borrows;
    let ghost vars = table@;
    let ghost scopes = tree@;
    let mut lo: usize = 0;
    let mut hi: usize = usize::MAX;
    let mut k: usize = 0;
    while k < n
        invariant
            k <= n,
            n == group.members@.len(),
            borrows == ledger@.borrows,
            vars == table@,
            scopes == tree@,
            members_known(group.members@.take(k as int), borrows, vars, scopes),
            lo == latest_start(group.members@.take(k as int), borrows),
            hi == earliest_end(group.members@.take(k as int), borrows, vars),
        decreases n - k,
    {
        let m = group.members[k];
        let ghost prefix = group.members@.take(k as int);
        let ghost next = group.members@.take(k as int + 1);
        proof {
            assert(next.drop_last() =~= prefix);
            assert(next.last() == m);
        }
        let b = match ledger.get(m) {
            Some(b) => b,
            None => {
                assert(!member_known(group.members@[k as int], borrows, vars, scopes));
                return Err(ErrorKind::MalformedStream);
            },
        };
        let v = match table.get(b.var) {
            Some(v) => v,
            None => {
                assert(!member_known(group.members@[k as int], borrows, vars, scopes));
                return Err(ErrorKind::MalformedStream);
            },
        };
        if v.scope >= tree.len() {
            assert(!member_known(group.members@[k as int], borrows, vars, scopes));
            return Err(ErrorKind::MalformedStream);
        }
        let e = if b.finalized {
            b.end
        } else {
            match v.closed_at {
                Some(c) => c,
                None => usize::MAX,
            }
        };
        if b.start > lo {
            lo = b.start;
        }
        if e < hi {
            hi = e;
        }
        proof {
            assert forall|j: int| 0 <= j < next.len() implies member_known(
                #[trigger] next[j],
                borrows,
                vars,
                scopes,
            ) by {
                if j < k {
                    assert(prefix[j] == next[j]);
                }
            }
        }
        k += 1;
    }
    assert(group.members@.take(n as int) =~= group.members@);
    let mut i: usize = 0;
    while i < n
        invariant
            i <= n,
            n == group.members@.len(),
            borrows == ledger@.borrows,
            vars == table@,
            scopes == tree@,
            members_known(group.members@, borrows, vars, scopes),
            forall|x: int, y: int|
                #![trigger group.members@[x], group.members@[y]]
                0 <= x < y < n && x < i ==> related(
                    scopes,
                    scope_of(group.members@[x], borrows, vars),
                    scope_of(group.members@[y], borrows, vars),
                ),
        decreases n - i,
    {
        let si = scope_at(&group.members, i, ledger, table);
        let mut j: usize = i + 1;
        while j < n
            invariant
                i < j <= n,
                n == group.members@.len(),
                borrows == ledger@.borrows,
                vars == table@,
                scopes == tree@,
                members_known(group.members@, borrows, vars, scopes),
                si == scope_of(group.members@[i as int], borrows, vars),
                forall|y: int|
                    #![trigger group.members@[y]]
                    i < y < j ==> related(
                        scopes,
                        scope_of(group.members@[i as int], borrows, vars),
                        scope_of(group.members@[y], borrows, vars),
                    ),
            decreases n - j,
        {
            let sj = scope_at(&group.members, j, ledger, table);
            if !(tree.is_ancestor(si, sj) || tree.is_ancestor(sj, si)) {
                assert(!related(
                    scopes,
                    scope_of(group.members@[i as int], borrows, vars),
                    scope_of(group.members@[j as int], borrows, vars),
                ));
                return Err(ErrorKind::LifetimeConflict);
            }
            j += 1;
        }
        i += 1;
    }
    if lo > hi {
        return Err(ErrorKind::LifetimeConflict);
    }
    Ok(Interval { start: lo, end: hi })
}

/// The scope that declared the variable of the `k`-th member.
fn scope_at(ms: &Vec<usize>, k: usize, ledger: &BorrowLedger, table: &ValueTable) -> (s: usize)
    requires
        k < ms@.len(),
        ms@[k as int] < ledger@.borrows.len(),
        ledger@.borrows[ms@[k as int] as int].var < table@.len(),
    ensures
        s == scope_of(ms@[k as int], ledger@.borrows, table@),
{
    let b = ledger.get(ms[k]).unwrap();
    table.get(b.var).unwrap().scope
}

} // verus!
