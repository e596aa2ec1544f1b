//! Handles to host-owned binary data, and how a borrow of one is requested.

use crate::ledger::{BorrowError, BorrowMutError, Ledger, Ref, RefMut};
use crate::range::AddressRange;
use crate::state::Request;
use core::marker::PhantomData;
use vstd::layout::size_of;
use vstd::prelude::*;

verus! {

/// A value whose bytes can be borrowed through a ledger.
pub trait Borrow: Sized {
    /// The bytes that a borrow of this value covers.
    spec fn footprint(&self) -> AddressRange;

    /// Requests shared access to the bytes of this value.
    fn try_borrow(&self, ledger: &mut Ledger) -> (res: Result<Ref, BorrowError>)
        ensures
            res is Ok <==> old(ledger)@.admits_shared(self.footprint()),
            res matches Ok(token) ==> token@ == self.footprint(),
            final(ledger)@ == old(ledger)@.step(Request::Borrow(self.footprint())),
            old(ledger)@.wf() ==> final(ledger)@.wf(),
    ;

    /// Requests exclusive access to the bytes of this value.
    fn try_borrow_mut(&mut self, ledger: &mut Ledger) -> (res: Result<RefMut, BorrowMutError>)
        ensures
            *final(self) == *old(self),
            res is Ok <==> old(ledger)@.admits_exclusive(old(self).footprint()),
            res matches Ok(token) ==> token@ == old(self).footprint(),
            final(ledger)@ == old(ledger)@.step(Request::BorrowMut(old(self).footprint())),
            old(ledger)@.wf() ==> final(ledger)@.wf(),
    ;
}

/// A typed array of the host: `len` elements of type `T` that start at
/// `address`.
pub struct JsTypedArray<T> {
    data: usize,
    length: usize,
    _type: PhantomData<T>,
}

impl<T> Clone for JsTypedArray<T> {
    fn clone(&self) -> (copy: Self)
        ensures
            copy == *self,
    {
        proof {
            use_type_invariant(self);
        }
        JsTypedArray { data: self.data, length: self.length, _type: PhantomData }
    }
}

impl<T> Copy for JsTypedArray<T> {}

impl<T> JsTypedArray<T> {
    #[verifier::type_invariant]
    spec fn inv(&self) -> bool {
        self.data + self.length * size_of::<T>() <= usize::MAX
    }

    /// The address of the first byte.
    pub closed spec fn spec_address(&self) -> usize {
        self.data
    }

    /// The number of elements.
    /// The number of bytes.
    pub closed spec fn spec_len(&self) -> usize {
        self.length
    }

    /// Describes the typed array of `length` elements that the host keeps at
    /// `data`. There is none where its bytes would reach past the address
    /// space.
    pub fn from_raw_parts(data: usize, length: usize) -> (array: Option<Self>)
        ensures
            match array {
                Some(array) => {
                    &&& data + length * size_of::<T>() <= usize::MAX
                    &&& array.address() == data
                    &&& array.len() == length
                },
                None => data + length * size_of::<T>() > usize::MAX,
            },
    {
        match AddressRange::from_raw_parts(data, length, core::mem::size_of::<T>()) {
            Some(_) => Some(JsTypedArray { data, length, _type: PhantomData }),
            None => None,
        }
    }

    /// The address of the first element.
    #[verifier::when_used_as_spec(spec_address)]
    pub fn address(&self) -> (address: usize)
        ensures
            address == self.spec_address(),
    {
        self.data
    }

    /// The number of elements.
    #[verifier::when_used_as_spec(spec_len)]
    pub fn len(&self) -> (length: usize)
        ensures
            length == self.spec_len(),
    {
        self.length
    }

    /// The bytes that the elements occupy.
    pub fn byte_range(&self) -> (range: AddressRange)
        ensures
            range.start == self.address(),
            range.end == self.address() + self.len() * size_of::<T>(),
            range == self.footprint(),
    {
        proof {
            use_type_invariant(self);
        }
        let stride = core::mem::size_of::<T>();
        AddressRange::from_raw_parts(self.data, self.length, stride).unwrap()
    }
}

impl<T> Borrow for JsTypedArray<T> {
    open spec fn footprint(&self) -> AddressRange {
        AddressRange {
            start: self.address(),
            end: (self.address() + self.len() * size_of::<T>()) as usize,
        }
    }

    fn try_borrow(&self, ledger: &mut Ledger) -> (res: Result<Ref, BorrowError>) {
        ledger.try_borrow_internal(self.byte_range())
    }

    fn try_borrow_mut(&mut self, ledger: &mut Ledger) -> (res: Result<RefMut, BorrowMutError>) {
        ledger.try_borrow_mut_internal(self.byte_range())
    }
}

/// A byte buffer of the host's own kind: `len` bytes that start at `address`.
#[derive(Clone, Copy)]
pub struct JsBuffer {
    data: usize,
    len: usize,
}

impl JsBuffer {
    #[verifier::type_invariant]
    spec fn inv(&self) -> bool {
        self.data + self.len <= usize::MAX
    }

    /// The address of the first byte.
    pub closed spec fn spec_address(&self) -> usize {
        self.data
    }

    /// The number of bytes.
    pub closed spec fn spec_len(&self) -> usize {
        self.len
    }

    /// Describes the buffer of `len` bytes that the host keeps at `data`.
    /// There is none where its bytes would reach past the address space.
    pub fn from_raw_parts(data: usize, len: usize) -> (buffer: Option<Self>)
        ensures
            match buffer {
                Some(buffer) => {
                    &&& data + len <= usize::MAX
                    &&& buffer.address() == data
                    &&& buffer.len() == len
                },
                None => data + len > usize::MAX,
            },
    {
        match data.checked_add(len) {
            Some(_) => Some(JsBuffer { data, len }),
            None => None,
        }
    }

    /// The address of the first byte.
    #[verifier::when_used_as_spec(spec_address)]
    pub fn address(&self) -> (address: usize)
        ensures
            address == self.spec_address(),
    {
        self.data
    }

    /// The number of bytes.
    #[verifier::when_used_as_spec(spec_len)]
    pub fn len(&self) -> (len: usize)
        ensures
            len == self.spec_len(),
    {
        self.len
    }

    /// The bytes that the buffer occupies.
    pub fn byte_range(&self) -> (range: AddressRange)
        ensures
            range.start == self.address(),
            range.end == self.address() + self.len(),
            range == self.footprint(),
    {
        proof {
            use_type_invariant(self);
        }
        AddressRange::new(self.data, self.data + self.len)
    }
}

impl Borrow for JsBuffer {
    open spec fn footprint(&self) -> AddressRange {
        AddressRange { start: self.address(), end: (self.address() + self.len()) as usize }
    }

    fn try_borrow(&self, ledger: &mut Ledger) -> (res: Result<Ref, BorrowError>) {
        ledger.try_borrow_internal(self.byte_range())
    }

    fn try_borrow_mut(&mut self, ledger: &mut Ledger) -> (res: Result<RefMut, BorrowMutError>) {
        ledger.try_borrow_mut_internal(self.byte_range())
    }
}

/// A raw binary buffer of the host: `len` bytes that start at `address`.
#[derive(Clone, Copy)]
pub struct JsArrayBuffer {
    data: usize,
    len: usize,
}

impl JsArrayBuffer {
    #[verifier::type_invariant]
    spec fn inv(&self) -> bool {
        self.data + self.len <= usize::MAX
    }

    /// The address of the first byte.
    pub closed spec fn spec_address(&self) -> usize {
        self.data
    }

    /// The number of bytes.
    pub closed spec fn spec_len(&self) -> usize {
        self.len
    }

    /// Describes the buffer of `len` bytes that the host keeps at `data`.
    /// There is none where its bytes would reach past the address space.
    pub fn from_raw_parts(data: usize, len: usize) -> (buffer: Option<Self>)
        ensures
            match buffer {
                Some(buffer) => {
                    &&& data + len <= usize::MAX
                    &&& buffer.address() == data
                    &&& buffer.len() == len
                },
                None => data + len > usize::MAX,
            },
    {
        match data.checked_add(len) {
            Some(_) => Some(JsArrayBuffer { data, len }),
            None => None,
        }
    }

    /// The address of the first byte.
    #[verifier::when_used_as_spec(spec_address)]
    pub fn address(&self) -> (address: usize)
        ensures
            address == self.spec_address(),
    {
        self.data
    }

    /// The number of bytes.
    #[verifier::when_used_as_spec(spec_len)]
    pub fn len(&self) -> (len: usize)
        ensures
            len == self.spec_len(),
    {
        self.len
    }

    /// The bytes that the buffer occupies.
    pub fn byte_range(&self) -> (range: AddressRange)
        ensures
            range.start == self.address(),
            range.end == self.address() + self.len(),
            range == self.footprint(),
    {
        proof {
            use_type_invariant(self);
        }
        AddressRange::new(self.data, self.data + self.len)
    }
}

impl Borrow for JsArrayBuffer {
    open spec fn footprint(&self) -> AddressRange {
        AddressRange { start: self.address(), end: (self.address() + self.len()) as usize }
    }

    fn try_borrow(&self, ledger: &mut Ledger) -> (res: Result<Ref, BorrowError>) {
        ledger.try_borrow_internal(self.byte_range())
    }

    fn try_borrow_mut(&mut self, ledger: &mut Ledger) -> (res: Result<RefMut, BorrowMutError>) {
        ledger.try_borrow_mut_internal(self.byte_range())
    }
}

} // verus!
