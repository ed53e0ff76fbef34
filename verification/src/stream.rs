//! The operation stream that the engine consumes, and what the rest of a
//! stream says about a borrow: whether it is used again.
use vstd::prelude::*;
use crate::kinds::{BorrowKind, Classification};
use crate::lifetime::LifetimeGroup;

verus! {

/// One operation of a stream. Variables, borrows and scopes are named by
/// the index that their introduction gave them: the first successful
/// `Declare` introduces variable 0, the first `BorrowUse` borrow 0, the
/// first `ScopeBegin` scope 1 (scope 0 is the root, open from the start).
#[derive(Debug, PartialEq, Eq)]
pub enum Operation {
    /// Binds `name` in the innermost open scope.
    Declare { name: u64, class: Classification },
    /// A consuming read of `var`, such as passing it by value.
    MoveUse { var: usize },
    /// Takes a borrow of `kind` on `var`.
    BorrowUse { kind: BorrowKind, var: usize },
    /// Uses `borrow` again.
    UseBorrow { borrow: usize },
    /// Exchanges the values of `a` and `b`: two exclusive borrows, taken
    /// together and given up at once.
    Swap { a: usize, b: usize },
    /// Opens a scope inside the innermost open scope.
    ScopeBegin,
    /// Closes the innermost open scope.
    ScopeEnd,
    /// Requires the borrows of `group` to share one lifetime.
    Unify { group: LifetimeGroup },
}

/// One entry of a stream: an operation, tagged with its source position.
/// The position is handed back with a rejection and is otherwise opaque.
#[derive(Debug, PartialEq, Eq)]
pub struct Entry {
    /// The operation.
    pub op: Operation,
    /// Where the operation stands in the source.
    pub position: u64,
}

/// The entry is a use of borrow `b`.
pub open spec fn references(e: Entry, b: usize) -> bool {
    e.op matches Operation::UseBorrow { borrow } && borrow == b
}

/// Borrow `b` is used by an operation after index `i`.
pub open spec fn used_after(ops: Seq<Entry>, i: int, b: usize) -> bool {
    exists|j: int| i < j < ops.len() && #[trigger] references(ops[j], b)
}

/// The index of the last use of borrow `b` among the first `upto`
/// operations; 0 if there is none.
pub open spec fn last_reference(ops: Seq<Entry>, b: usize, upto: int) -> int
    decreases upto,
{
    if upto <= 0 {
        0
    } else if references(ops[upto - 1], b) {
        upto - 1
    } else {
        last_reference(ops, b, upto - 1)
    }
}

/// A borrow is used after index `i` exactly when its last use lies after `i`.
pub proof fn lemma_last_reference(ops: Seq<Entry>, b: usize, upto: int, i: int)
    requires
        0 <= i,
        0 <= upto <= ops.len(),
    ensures
        0 <= last_reference(ops, b, upto),
        upto > 0 ==> last_reference(ops, b, upto) < upto,
        last_reference(ops, b, upto) > i <==> exists|j: int|
            i < j < upto && #[trigger] references(ops[j], b),
    decreases upto,
{
    if upto > 0 {
        lemma_last_reference(ops, b, upto - 1, i);
        if references(ops[upto - 1], b) {
        } else {
            if exists|j: int| i < j < upto && #[trigger] references(ops[j], b) {
                let j = choose|j: int| i < j < upto && #[trigger] references(ops[j], b);
                assert(j < upto - 1);
            }
        }
    }
}

/// For each borrow index below the length of the stream, the index of the
/// operation that uses the borrow last, 0 if none does.
pub fn last_references(ops: &Vec<Entry>) -> (t: Vec<usize>)
    ensures
        t@.len() == ops@.len(),
        forall|b: int|
            0 <= b < t@.len() ==> #[trigger] t@[b] == last_reference(
                ops@,
                b as usize,
                ops@.len() as int,
            ),
{
    let n = ops.len();
    let mut t: Vec<usize> = Vec::new();
    let mut k: usize = 0;
    while k < n
        invariant
            k <= n,
            t@.len() == k,
            forall|b: int| 0 <= b < k ==> #[trigger] t@[b] == 0,
        decreases n - k,
    {
        t.push(0);
        k += 1;
    }
    let mut j: usize = 0;
    while j < n
        invariant
            j <= n,
            n == ops@.len(),
            t@.len() == n,
            forall|b: int| 0 <= b < n ==> #[trigger] t@[b] == last_reference(ops@, b as usize, j as int),
        decreases n - j,
    {
        match &ops[j].op {
            Operation::UseBorrow { borrow } => {
                if *borrow < n {
                    t.set(*borrow, j);
                }
            },
            _ => {},
        }
        j += 1;
    }
    t
}

} // verus!
