//! The borrow ledger: every borrow ever created, with the interval over
//! which it is live, and the exclusion rule between borrows of one variable.
use vstd::prelude::*;
use crate::kinds::{BorrowKind, ErrorKind};

verus! {

/// One borrow. It names its variable by index into the value table.
#[derive(Clone, Copy, Debug, PartialEq, Eq)]
pub struct Borrow {
    /// Shared or exclusive.
    pub kind: BorrowKind,
    /// The borrowed variable.
    pub var: usize,
    /// The operation index that created the borrow.
    pub start: usize,
    /// The operation index of the last recorded use.
    pub end: usize,
    /// Whether the interval `[start, end]` is locked: the last use was seen.
    pub finalized: bool,
}

impl Borrow {
    /// The borrow is live at operation index `at`: `at` lies between its
    /// creation and its last use, where the last use of a borrow that is
    /// still open is yet to come.
    pub open spec fn live_at(self, at: usize) -> bool {
        self.start <= at && (!self.finalized || at <= self.end)
    }

    /// The two kinds may not be live together on one variable.
    pub open spec fn clashes(self, var: usize, kind: BorrowKind) -> bool {
        self.var == var && (kind is Exclusive || self.kind is Exclusive)
    }

    /// This borrow forbids a new borrow of `kind` on `var` at `at`.
    pub open spec fn excludes(self, var: usize, kind: BorrowKind, at: usize) -> bool {
        self.clashes(var, kind) && self.live_at(at)
    }

    /// The interval of this borrow is locked and ends before `other` begins.
    pub open spec fn precedes(self, other: Borrow) -> bool {
        self.finalized && self.end < other.start
    }

    /// The recorded interval is well-formed and lies within `clock`.
    pub open spec fn timed(self, clock: usize) -> bool {
        self.start <= self.end <= clock
    }

    /// The borrow as created at `at`: open, with the one-point interval.
    pub open spec fn opened(var: usize, kind: BorrowKind, at: usize) -> Borrow {
        Borrow { kind, var, start: at, end: at, finalized: false }
    }

    /// The same borrow with its last use moved to `at`.
    pub open spec fn used(self, at: usize) -> Borrow {
        Borrow { kind: self.kind, var: self.var, start: self.start, end: at, finalized: self.finalized }
    }

    /// The same borrow with its interval locked.
    pub open spec fn locked(self) -> Borrow {
        Borrow { kind: self.kind, var: self.var, start: self.start, end: self.end, finalized: true }
    }
}

/// What the ledger holds: the borrows in creation order, and the highest
/// operation index it has recorded.
pub struct LedgerView {
    /// The borrows, in creation order.
    pub borrows: Seq<Borrow>,
    /// The highest operation index recorded so far.
    pub clock: usize,
}

/// The least index from `from` on of a borrow that forbids a new borrow of
/// `kind` on `var` at `at`.
pub open spec fn first_conflict_from(
    borrows: Seq<Borrow>,
    var: usize,
    kind: BorrowKind,
    at: usize,
    from: int,
) -> Option<usize>
    decreases borrows.len() - from,
{
    if from < 0 || from >= borrows.len() {
        None
    } else if borrows[from].excludes(var, kind, at) {
        Some(from as usize)
    } else {
        first_conflict_from(borrows, var, kind, at, from + 1)
    }
}

/// The earliest-created borrow that forbids a new borrow of `kind` on `var`
/// at `at`, if there is one.
pub open spec fn first_conflict(borrows: Seq<Borrow>, var: usize, kind: BorrowKind, at: usize) -> Option<
    usize,
> {
    first_conflict_from(borrows, var, kind, at, 0)
}

/// The ledger's invariant. Every interval is well-formed and within the
/// clock; and of two borrows of one variable, one of them exclusive, the
/// earlier is locked and ends before the later begins: no exclusive interval
/// overlaps any other interval on its variable.
pub open spec fn ledger_wf(l: LedgerView) -> bool {
    &&& forall|b: int| 0 <= b < l.borrows.len() ==> (#[trigger] l.borrows[b]).timed(l.clock)
    &&& forall|i: int, j: int|
        #![trigger l.borrows[i], l.borrows[j]]
        0 <= i < j < l.borrows.len() && l.borrows[i].clashes(l.borrows[j].var, l.borrows[j].kind)
            ==> l.borrows[i].precedes(l.borrows[j])
}

/// The ledger after a borrow of `kind` on `var` is created at `at`, or the
/// reason it is refused.
pub open spec fn create_spec(l: LedgerView, var: usize, kind: BorrowKind, at: usize) -> Result<
    LedgerView,
    ErrorKind,
> {
    if at < l.clock {
        Err(ErrorKind::StaleUse)
    } else if first_conflict(l.borrows, var, kind, at) is Some {
        Err(ErrorKind::ConflictingBorrow)
    } else {
        Ok(LedgerView { borrows: l.borrows.push(Borrow::opened(var, kind, at)), clock: at })
    }
}

/// The ledger after a use of borrow `b` at `at` is recorded, or the reason
/// it is refused.
pub open spec fn record_use_spec(l: LedgerView, b: usize, at: usize) -> Result<
    LedgerView,
    ErrorKind,
> {
    if b >= l.borrows.len() {
        Err(ErrorKind::MalformedStream)
    } else if l.borrows[b as int].finalized || at < l.clock {
        Err(ErrorKind::StaleUse)
    } else {
        Ok(LedgerView { borrows: l.borrows.update(b as int, l.borrows[b as int].used(at)), clock: at })
    }
}

/// The ledger after the interval of borrow `b` is locked.
pub open spec fn finalize_spec(l: LedgerView, b: usize) -> Result<LedgerView, ErrorKind> {
    if b >= l.borrows.len() {
        Err(ErrorKind::MalformedStream)
    } else {
        Ok(LedgerView { borrows: l.borrows.update(b as int, l.borrows[b as int].locked()), clock: l.clock })
    }
}

/// `first_conflict_from` finds a forbidding borrow at or after `from`, and
/// the least one.
pub proof fn lemma_first_conflict_from(
    borrows: Seq<Borrow>,
    var: usize,
    kind: BorrowKind,
    at: usize,
    from: int,
)
    requires
        0 <= from,
        borrows.len() <= usize::MAX,
    ensures
        match first_conflict_from(borrows, var, kind, at, from) {
            Some(b) => {
                &&& from <= b < borrows.len()
                &&& borrows[b as int].excludes(var, kind, at)
                &&& forall|j: int| from <= j < b ==> !(#[trigger] borrows[j]).excludes(var, kind, at)
            },
            None => forall|j: int|
                from <= j < borrows.len() ==> !(#[trigger] borrows[j]).excludes(var, kind, at),
        },
    decreases borrows.len() - from,
{
    if from < borrows.len() && !borrows[from].excludes(var, kind, at) {
        lemma_first_conflict_from(borrows, var, kind, at, from + 1);
    }
}

/// The borrow ledger. It exclusively owns the borrow records.
#[derive(Debug)]
pub struct BorrowLedger {
    borrows: Vec<Borrow>,
    clock: usize,
}

impl View for BorrowLedger {
    type V = LedgerView;

    closed spec fn view(&self) -> LedgerView {
        LedgerView { borrows: self.borrows@, clock: self.clock }
    }
}

impl BorrowLedger {
    /// The ledger's invariant.
    pub open spec fn wf(&self) -> bool {
        ledger_wf(self@)
    }

    /// An empty ledger.
    pub fn new() -> (l: BorrowLedger)
        ensures
            l@ == (LedgerView { borrows: Seq::<Borrow>::empty(), clock: 0 }),
            l.wf(),
    {
        let l = BorrowLedger { borrows: Vec::new(), clock: 0 };
        assert(l@.borrows =~= Seq::<Borrow>::empty());
        l
    }

    /// The number of borrows created so far.
    pub fn len(&self) -> (n: usize)
        ensures
            n == self@.borrows.len(),
    {
        self.borrows.len()
    }

    /// The highest operation index recorded so far.
    pub fn clock(&self) -> (c: usize)
        ensures
            c == self@.clock,
    {
        self.clock
    }

    /// The record of borrow `b`, if it was created.
    pub fn get(&self, b: usize) -> (r: Option<Borrow>)
        ensures
            r == (if b < self@.borrows.len() {
                Some(self@.borrows[b as int])
            } else {
                None
            }),
    {
        if b < self.borrows.len() {
            Some(self.borrows[b])
        } else {
            None
        }
    }

    /// The earliest-created borrow that forbids a new borrow of `kind` on
    /// `var` at `at`: a live borrow of `var`, where it or the new one is
    /// exclusive.
    pub fn conflicting(&self, var: usize, kind: BorrowKind, at: usize) -> (r: Option<usize>)
        ensures
            r == first_conflict(self@.borrows, var, kind, at),
    {
        let n = self.borrows.len();
        let exclusive = match kind {
            BorrowKind::Exclusive => true,
            BorrowKind::Shared => false,
        };
        let mut k: usize = 0;
        while k < n
            invariant
                k <= n,
                n == self.borrows@.len(),
                exclusive == (kind is Exclusive),
                first_conflict(self.borrows@, var, kind, at) == first_conflict_from(
                    self.borrows@,
                    var,
                    kind,
                    at,
                    k as int,
                ),
            decreases n - k,
        {
            let b = self.borrows[k];
            let other_exclusive = match b.kind {
                BorrowKind::Exclusive => true,
                BorrowKind::Shared => false,
            };
            if b.var == var && (exclusive || other_exclusive) && b.start <= at && (!b.finalized
                || at <= b.end) {
                return Some(k);
            }
            k += 1;
        }
        None
    }

    /// Creates a borrow of `kind` on `var` at operation index `at`. Refused
    /// with `StaleUse` if `at` lies before an index already recorded, and
    /// with `ConflictingBorrow` if a borrow of `var` that is live at `at`
    /// excludes the new one. The new borrow is open, with last use `at`.
    pub fn create_borrow(&mut self, var: usize, kind: BorrowKind, at: usize) -> (r: Result<
        usize,
        ErrorKind,
    >)
        requires
            old(self).wf(),
        ensures
            final(self).wf(),
            match r {
                Ok(id) => id == old(self)@.borrows.len() && create_spec(old(self)@, var, kind, at)
                    == Ok::<LedgerView, ErrorKind>(final(self)@),
                Err(e) => create_spec(old(self)@, var, kind, at) == Err::<LedgerView, ErrorKind>(e)
                    && final(self)@ == old(self)@,
            },
    {
        if at < self.clock {
            return Err(ErrorKind::StaleUse);
        }
        if self.conflicting(var, kind, at).is_some() {
            return Err(ErrorKind::ConflictingBorrow);
        }
        let id = self.borrows.len();
        proof {
            lemma_first_conflict_from(self.borrows@, var, kind, at, 0);
        }
        self.borrows.push(Borrow { kind, var, start: at, end: at, finalized: false });
        self.clock = at;
        Ok(id)
    }

    /// Records a use of borrow `b` at `at`, which becomes its last use.
    /// Refused with `MalformedStream` if the borrow was never created, and
    /// with `StaleUse` if its interval is locked or `at` lies before an
    /// index already recorded.
    pub fn record_use(&mut self, b: usize, at: usize) -> (r: Result<(), ErrorKind>)
        requires
            old(self).wf(),
        ensures
            final(self).wf(),
            match r {
                Ok(_) => record_use_spec(old(self)@, b, at) == Ok::<LedgerView, ErrorKind>(
                    final(self)@,
                ),
                Err(e) => record_use_spec(old(self)@, b, at) == Err::<LedgerView, ErrorKind>(e)
                    && final(self)@ == old(self)@,
            },
    {
        if b >= self.borrows.len() {
            return Err(ErrorKind::MalformedStream);
        }
        let rec = self.borrows[b];
        if rec.finalized || at < self.clock {
            return Err(ErrorKind::StaleUse);
        }
        self.borrows.set(
            b,
            Borrow { kind: rec.kind, var: rec.var, start: rec.start, end: at, finalized: false },
        );
        self.clock = at;
        Ok(())
    }

    /// Locks the interval of borrow `b` at its last recorded use. Locking
    /// twice changes nothing. Refused with `MalformedStream` if the borrow
    /// was never created.
    pub fn finalize(&mut self, b: usize) -> (r: Result<(), ErrorKind>)
        requires
            old(self).wf(),
        ensures
            final(self).wf(),
            match r {
                Ok(_) => finalize_spec(old(self)@, b) == Ok::<LedgerView, ErrorKind>(final(self)@),
                Err(e) => finalize_spec(old(self)@, b) == Err::<LedgerView, ErrorKind>(e)
                    && final(self)@ == old(self)@,
            },
    {
        if b >= self.borrows.len() {
            return Err(ErrorKind::MalformedStream);
        }
        let rec = self.borrows[b];
        self.borrows.set(
            b,
            Borrow { kind: rec.kind, var: rec.var, start: rec.start, end: rec.end, finalized: true },
        );
        Ok(())
    }
}

} // verus!
