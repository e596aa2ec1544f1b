//! The borrow ledger: which byte ranges are held shared and which exclusive.

use crate::laws::law_request_keeps_invariants;
use crate::range::AddressRange;
use crate::state::{conflicts, LedgerState, Request};
use vstd::prelude::*;

verus! {

/// Returned when a shared borrow meets a live exclusive holder.
#[derive(Debug)]
pub struct BorrowError {
    _private: (),
}

/// Returned when an exclusive borrow meets a live holder of either class.
#[derive(Debug)]
pub struct BorrowMutError {
    _private: (),
}

impl BorrowError {
    /// The message of this error.
    pub fn to_string(&self) -> (message: String)
        ensures
            message@ == "already mutably borrowed"@,
    {
        "already mutably borrowed".to_owned()
    }
}

impl BorrowMutError {
    /// The message of this error.
    pub fn to_string(&self) -> (message: String)
        ensures
            message@ == "already borrowed"@,
    {
        "already borrowed".to_owned()
    }
}

/// The capability that a successful shared borrow hands out. It records the
/// exact range that was registered, and gives it back to the ledger once,
/// through [`Ref::release`]. It cannot be copied, so no range is given back
/// twice.
#[must_use]
#[derive(Debug)]
pub struct Ref {
    range: AddressRange,
}

/// The capability that a successful exclusive borrow hands out. It records
/// the exact range that was registered, and gives it back to the ledger
/// once, through [`RefMut::release`].
#[must_use]
#[derive(Debug)]
pub struct RefMut {
    range: AddressRange,
}

/// Bookkeeping of the live borrows of one operation.
pub struct Ledger {
    exclusive: Vec<AddressRange>,
    shared: Vec<AddressRange>,
}

impl View for Ledger {
    type V = LedgerState;

    closed spec fn view(&self) -> LedgerState {
        LedgerState { exclusive: self.exclusive@, shared: self.shared@ }
    }
}

/// Scans `held` for an entry that overlaps `range`.
fn has_overlap(held: &Vec<AddressRange>, range: AddressRange) -> (hit: bool)
    ensures
        hit == conflicts(held@, range),
{
    let mut i: usize = 0;
    while i < held.len()
        invariant
            i <= held.len(),
            forall|k: int| 0 <= k < i ==> !(#[trigger] held@[k]).overlaps(range),
        decreases held.len() - i,
    {
        if held[i].intersects(&range) {
            return true;
        }
        i += 1;
    }
    false
}

/// Finds the first entry of `held` that equals `range`.
fn position(held: &Vec<AddressRange>, range: AddressRange) -> (pos: Option<usize>)
    ensures
        match pos {
            Some(i) => held@.index_of_first(range) == Some(i as int),
            None => held@.index_of_first(range) is None,
        },
{
    let mut i: usize = 0;
    while i < held.len()
        invariant
            i <= held.len(),
            forall|k: int| 0 <= k < i ==> held@[k] != range,
        decreases held.len() - i,
    {
        if held[i] == range {
            proof {
                assert(held@[i as int] == range);
                held@.index_of_first_ensures(range);
            }
            return Some(i);
        }
        i += 1;
    }
    proof {
        held@.index_of_first_ensures(range);
    }
    None
}

impl Ledger {
    /// A ledger with no live borrow.
    pub fn new() -> (ledger: Ledger)
        ensures
            ledger@ == LedgerState::empty(),
            ledger@.wf(),
    {
        Ledger { exclusive: Vec::new(), shared: Vec::new() }
    }

    /// Requests shared access to `range`. It is granted exactly when no
    /// exclusive holder overlaps `range`; the range is then registered after
    /// the shared entries already present. A refusal leaves the ledger as it
    /// was.
    pub fn try_borrow_internal(&mut self, range: AddressRange) -> (res: Result<Ref, BorrowError>)
        ensures
            res is Ok <==> old(self)@.admits_shared(range),
            res matches Ok(token) ==> token@ == range,
            final(self)@ == old(self)@.step(Request::Borrow(range)),
            old(self)@.wf() ==> final(self)@.wf(),
    {
        if has_overlap(&self.exclusive, range) {
            return Err(BorrowError { _private: () });
        }
        proof {
            if old(self)@.wf() {
                law_request_keeps_invariants(old(self)@, Request::Borrow(range));
            }
        }
        self.shared.push(range);
        Ok(Ref { range })
    }

    /// Requests exclusive access to `range`. It is granted exactly when no
    /// holder of either class overlaps `range`; the range is then registered
    /// after the exclusive entries already present. A refusal leaves the
    /// ledger as it was.
    pub fn try_borrow_mut_internal(
        &mut self,
        range: AddressRange,
    ) -> (res: Result<RefMut, BorrowMutError>)
        ensures
            res is Ok <==> old(self)@.admits_exclusive(range),
            res matches Ok(token) ==> token@ == range,
            final(self)@ == old(self)@.step(Request::BorrowMut(range)),
            old(self)@.wf() ==> final(self)@.wf(),
    {
        if has_overlap(&self.exclusive, range) || has_overlap(&self.shared, range) {
            return Err(BorrowMutError { _private: () });
        }
        proof {
            if old(self)@.wf() {
                law_request_keeps_invariants(old(self)@, Request::BorrowMut(range));
            }
        }
        self.exclusive.push(range);
        Ok(RefMut { range })
    }

    /// Whether a shared borrow of exactly `range` is live.
    pub fn holds_shared(&self, range: AddressRange) -> (held: bool)
        ensures
            held == self@.shared.contains(range),
    {
        proof {
            self.shared@.index_of_first_ensures(range);
        }
        position(&self.shared, range).is_some()
    }

    /// Whether an exclusive borrow of exactly `range` is live.
    pub fn holds_exclusive(&self, range: AddressRange) -> (held: bool)
        ensures
            held == self@.exclusive.contains(range),
    {
        proof {
            self.exclusive@.index_of_first_ensures(range);
        }
        position(&self.exclusive, range).is_some()
    }
}

impl View for Ref {
    type V = AddressRange;

    /// The range that this token registered.
    closed spec fn view(&self) -> AddressRange {
        self.range
    }
}

impl View for RefMut {
    type V = AddressRange;

    /// The range that this token registered.
    closed spec fn view(&self) -> AddressRange {
        self.range
    }
}

impl Ref {
    /// The range that this token registered.
    pub fn range(&self) -> (range: AddressRange)
        ensures
            range == self@,
    {
        self.range
    }

    /// Ends the borrow: removes from the ledger the first shared entry equal
    /// to this token's range, and no other. The token is used up.
    pub fn release(self, ledger: &mut Ledger)
        requires
            old(ledger)@.shared.contains(self@),
        ensures
            final(ledger)@ == old(ledger)@.step(Request::Release(self@)),
            old(ledger)@.wf() ==> final(ledger)@.wf(),
    {
        proof {
            ledger.shared@.index_of_first_ensures(self.range);
            if old(ledger)@.wf() {
                law_request_keeps_invariants(old(ledger)@, Request::Release(self.range));
            }
        }
        let pos = position(&ledger.shared, self.range);
        ledger.shared.remove(pos.unwrap());
    }
}

impl RefMut {
    /// The range that this token registered.
    pub fn range(&self) -> (range: AddressRange)
        ensures
            range == self@,
    {
        self.range
    }

    /// Ends the borrow: removes from the ledger the exclusive entry equal to
    /// this token's range. The token is used up.
    pub fn release(self, ledger: &mut Ledger)
        requires
            old(ledger)@.exclusive.contains(self@),
        ensures
            final(ledger)@ == old(ledger)@.step(Request::ReleaseMut(self@)),
            old(ledger)@.wf() ==> final(ledger)@.wf(),
    {
        proof {
            ledger.exclusive@.index_of_first_ensures(self.range);
            if old(ledger)@.wf() {
                law_request_keeps_invariants(old(ledger)@, Request::ReleaseMut(self.range));
            }
        }
        let pos = position(&ledger.exclusive, self.range);
        ledger.exclusive.remove(pos.unwrap());
    }
}

} // verus!
