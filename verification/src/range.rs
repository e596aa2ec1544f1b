//! Half-open intervals of raw byte addresses.

use vstd::prelude::*;

verus! {

/// The half-open interval `[start, end)` of byte addresses that one borrow
/// covers. It is a bookkeeping key only and owns no memory.
#[derive(Clone, Copy, Debug, PartialEq, Eq, Structural)]
pub struct AddressRange {
    pub start: usize,
    pub end: usize,
}

impl AddressRange {
    /// Two ranges overlap when each starts before the other ends.
    pub open spec fn overlaps(self, other: AddressRange) -> bool {
        self.start < other.end && other.start < self.end
    }

    /// Whether `address` lies in the range.
    pub open spec fn contains(self, address: int) -> bool {
        self.start <= address < self.end
    }

    /// The range from `start` up to, and without, `end`.
    pub fn new(start: usize, end: usize) -> (range: AddressRange)
        ensures
            range.start == start,
            range.end == end,
    {
        AddressRange { start, end }
    }

    /// The footprint of `length` elements of `stride` bytes each that start
    /// at `address`, or `None` when it would reach past the address space.
    pub fn from_raw_parts(
        address: usize,
        length: usize,
        stride: usize,
    ) -> (range: Option<AddressRange>)
        ensures
            match range {
                Some(r) => r.start == address && r.end == address + length * stride,
                None => address + length * stride > usize::MAX,
            },
    {
        match length.checked_mul(stride) {
            Some(bytes) => match address.checked_add(bytes) {
                Some(end) => Some(AddressRange { start: address, end }),
                None => None,
            },
            None => None,
        }
    }

    /// Decides whether `self` and `other` overlap.
    pub fn intersects(&self, other: &AddressRange) -> (hit: bool)
        ensures
            hit == self.overlaps(*other),
    {
        self.start < other.end && other.start < self.end
    }
}

} // verus!
