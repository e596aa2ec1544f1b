//! The mathematical state of a ledger and the transitions between states.

use crate::range::AddressRange;
use vstd::multiset::Multiset;
use vstd::prelude::*;

verus! {

/// What a ledger holds, as mathematics: the live exclusive and the live
/// shared ranges, each in the order in which they were admitted.
pub struct LedgerState {
    pub exclusive: Seq<AddressRange>,
    pub shared: Seq<AddressRange>,
}

/// One request to a ledger: a borrow of either class, or the release of one.
pub enum Request {
    Borrow(AddressRange),
    BorrowMut(AddressRange),
    Release(AddressRange),
    ReleaseMut(AddressRange),
}

/// The tokens that are out, granted and not yet given back: for each class,
/// how many there are of each range.
pub struct LiveTokens {
    pub exclusive: Multiset<AddressRange>,
    pub shared: Multiset<AddressRange>,
}

/// Whether some entry of `held` overlaps `range`.
pub open spec fn conflicts(held: Seq<AddressRange>, range: AddressRange) -> bool {
    exists|i: int| 0 <= i < held.len() && (#[trigger] held[i]).overlaps(range)
}

impl Request {
    /// The range that the request is about.
    pub open spec fn range(self) -> AddressRange {
        match self {
            Request::Borrow(range) => range,
            Request::BorrowMut(range) => range,
            Request::Release(range) => range,
            Request::ReleaseMut(range) => range,
        }
    }
}

impl LiveTokens {
    /// No token is out.
    pub open spec fn none() -> LiveTokens {
        LiveTokens { exclusive: Multiset::empty(), shared: Multiset::empty() }
    }
}

impl LedgerState {
    /// The state with no live borrow.
    pub open spec fn empty() -> LedgerState {
        LedgerState { exclusive: Seq::empty(), shared: Seq::empty() }
    }

    /// A shared borrow of `range` is admitted when no exclusive holder
    /// overlaps it. Shared holders never stand in the way.
    pub open spec fn admits_shared(self, range: AddressRange) -> bool {
        !conflicts(self.exclusive, range)
    }

    /// An exclusive borrow of `range` is admitted when no holder of either
    /// class overlaps it.
    pub open spec fn admits_exclusive(self, range: AddressRange) -> bool {
        !conflicts(self.exclusive, range) && !conflicts(self.shared, range)
    }

    /// The state after a shared borrow of `range` was registered.
    pub open spec fn with_shared(self, range: AddressRange) -> LedgerState {
        LedgerState { exclusive: self.exclusive, shared: self.shared.push(range) }
    }

    /// The state after an exclusive borrow of `range` was registered.
    pub open spec fn with_exclusive(self, range: AddressRange) -> LedgerState {
        LedgerState { exclusive: self.exclusive.push(range), shared: self.shared }
    }

    /// The state after one shared entry equal to `range` was removed: the
    /// first one, the others keeping their order.
    pub open spec fn without_shared(self, range: AddressRange) -> LedgerState {
        LedgerState { exclusive: self.exclusive, shared: self.shared.remove_value(range) }
    }

    /// The state after one exclusive entry equal to `range` was removed: the
    /// first one, the others keeping their order.
    pub open spec fn without_exclusive(self, range: AddressRange) -> LedgerState {
        LedgerState { exclusive: self.exclusive.remove_value(range), shared: self.shared }
    }

    /// The state after `request`. A borrow that is not admitted changes
    /// nothing. The model is total: neither does a release of a range that
    /// is not held, a case that the executable release rules out.
    pub open spec fn step(self, request: Request) -> LedgerState {
        match request {
            Request::Borrow(range) => {
                if self.admits_shared(range) {
                    self.with_shared(range)
                } else {
                    self
                }
            },
            Request::BorrowMut(range) => {
                if self.admits_exclusive(range) {
                    self.with_exclusive(range)
                } else {
                    self
                }
            },
            Request::Release(range) => self.without_shared(range),
            Request::ReleaseMut(range) => self.without_exclusive(range),
        }
    }

    /// The state after the requests of `trace`, first to last.
    pub open spec fn run(self, trace: Seq<Request>) -> LedgerState
        decreases trace.len(),
    {
        if trace.len() == 0 {
            self
        } else {
            self.run(trace.drop_last()).step(trace.last())
        }
    }

    /// The tokens that are out after the requests of `trace`, made from
    /// this state on: a granted borrow hands one out, a release gives one
    /// back.
    pub open spec fn tokens_after(self, trace: Seq<Request>) -> LiveTokens
        decreases trace.len(),
    {
        if trace.len() == 0 {
            LiveTokens::none()
        } else {
            let state = self.run(trace.drop_last());
            let out = self.tokens_after(trace.drop_last());
            match trace.last() {
                Request::Borrow(range) => {
                    if state.admits_shared(range) {
                        LiveTokens { exclusive: out.exclusive, shared: out.shared.insert(range) }
                    } else {
                        out
                    }
                },
                Request::BorrowMut(range) => {
                    if state.admits_exclusive(range) {
                        LiveTokens { exclusive: out.exclusive.insert(range), shared: out.shared }
                    } else {
                        out
                    }
                },
                Request::Release(range) => {
                    LiveTokens { exclusive: out.exclusive, shared: out.shared.remove(range) }
                },
                Request::ReleaseMut(range) => {
                    LiveTokens { exclusive: out.exclusive.remove(range), shared: out.shared }
                },
            }
        }
    }

    /// The discipline of tokens: every release in `trace` gives back a token
    /// that is out by then. A token comes from a granted borrow only and is
    /// used up by its release, so every run of requests that tokens allow is
    /// of this kind.
    pub open spec fn disciplined(self, trace: Seq<Request>) -> bool {
        forall|k: int|
            0 <= k < trace.len() ==> match #[trigger] trace[k] {
                Request::Release(range) => {
                    self.tokens_after(trace.take(k)).shared.count(range) > 0
                },
                Request::ReleaseMut(range) => {
                    self.tokens_after(trace.take(k)).exclusive.count(range) > 0
                },
                _ => true,
            }
    }

    /// The invariants of a ledger: no two exclusive entries overlap, and no
    /// exclusive entry overlaps a shared one. Shared entries may overlap
    /// each other freely.
    pub open spec fn wf(self) -> bool {
        &&& forall|i: int, j: int|
            #![trigger self.exclusive[i], self.exclusive[j]]
            0 <= i < j < self.exclusive.len() ==> !self.exclusive[i].overlaps(self.exclusive[j])
        &&& forall|i: int, j: int|
            #![trigger self.exclusive[i], self.shared[j]]
            0 <= i < self.exclusive.len() && 0 <= j < self.shared.len()
                ==> !self.exclusive[i].overlaps(self.shared[j])
    }
}

} // verus!
