use neon_binary::binary::{Borrow, JsArrayBuffer, JsBuffer, JsTypedArray};
use neon_binary::ledger::Ledger;
use neon_binary::range::AddressRange;

const BASE: usize = 0x4000;

fn range(start: usize, end: usize) -> AddressRange {
    AddressRange::new(start, end)
}

#[test]
fn byte_buffers_cover_one_byte_per_element() {
    let buffer = JsBuffer::from_raw_parts(BASE, 16).unwrap();
    assert_eq!(buffer.address(), BASE);
    assert_eq!(buffer.len(), 16);
    assert_eq!(buffer.byte_range(), range(BASE, BASE + 16));
    let buffer = JsArrayBuffer::from_raw_parts(BASE, 32).unwrap();
    assert_eq!(buffer.address(), BASE);
    assert_eq!(buffer.len(), 32);
    assert_eq!(buffer.byte_range(), range(BASE, BASE + 32));
}

#[test]
fn empty_buffers_cover_nothing() {
    assert_eq!(JsBuffer::from_raw_parts(BASE, 0).unwrap().byte_range(), range(BASE, BASE));
    assert_eq!(JsArrayBuffer::from_raw_parts(0, 0).unwrap().byte_range(), range(0, 0));
    assert_eq!(JsTypedArray::<u64>::from_raw_parts(BASE, 0).unwrap().byte_range(), range(BASE, BASE));
}

#[test]
fn typed_arrays_cover_their_stride_per_element() {
    assert_eq!(JsTypedArray::<i8>::from_raw_parts(BASE, 5).unwrap().byte_range(), range(BASE, BASE + 5));
    assert_eq!(JsTypedArray::<u8>::from_raw_parts(BASE, 5).unwrap().byte_range(), range(BASE, BASE + 5));
    assert_eq!(JsTypedArray::<i16>::from_raw_parts(BASE, 5).unwrap().byte_range(), range(BASE, BASE + 10));
    assert_eq!(JsTypedArray::<u16>::from_raw_parts(BASE, 5).unwrap().byte_range(), range(BASE, BASE + 10));
    assert_eq!(JsTypedArray::<i32>::from_raw_parts(BASE, 5).unwrap().byte_range(), range(BASE, BASE + 20));
    assert_eq!(JsTypedArray::<u32>::from_raw_parts(BASE, 5).unwrap().byte_range(), range(BASE, BASE + 20));
    assert_eq!(JsTypedArray::<f32>::from_raw_parts(BASE, 5).unwrap().byte_range(), range(BASE, BASE + 20));
    assert_eq!(JsTypedArray::<i64>::from_raw_parts(BASE, 5).unwrap().byte_range(), range(BASE, BASE + 40));
    assert_eq!(JsTypedArray::<u64>::from_raw_parts(BASE, 5).unwrap().byte_range(), range(BASE, BASE + 40));
    assert_eq!(JsTypedArray::<f64>::from_raw_parts(BASE, 5).unwrap().byte_range(), range(BASE, BASE + 40));
}

#[test]
fn typed_arrays_report_elements_not_bytes() {
    let array = JsTypedArray::<u32>::from_raw_parts(BASE, 4).unwrap();
    assert_eq!(array.address(), BASE);
    assert_eq!(array.len(), 4);
    let copy = array.clone();
    assert_eq!(copy.address(), BASE);
    assert_eq!(copy.len(), 4);
    assert_eq!(copy.byte_range(), array.byte_range());
}

#[test]
fn handles_past_the_address_space_do_not_exist() {
    assert!(JsBuffer::from_raw_parts(usize::MAX, 1).is_none());
    assert!(JsBuffer::from_raw_parts(usize::MAX - 1, 1).is_some());
    assert!(JsArrayBuffer::from_raw_parts(1, usize::MAX).is_none());
    assert!(JsArrayBuffer::from_raw_parts(0, usize::MAX).is_some());
    assert!(JsTypedArray::<u32>::from_raw_parts(usize::MAX - 3, 1).is_none());
    assert!(JsTypedArray::<u32>::from_raw_parts(usize::MAX - 4, 1).is_some());
    assert!(JsTypedArray::<u64>::from_raw_parts(0, usize::MAX / 8 + 1).is_none());
    assert!(JsTypedArray::<u64>::from_raw_parts(0, usize::MAX / 8).is_some());
}

#[test]
fn array_buffer_borrows_register_its_bytes() {
    let mut buffer = JsArrayBuffer::from_raw_parts(BASE, 16).unwrap();
    let mut ledger = Ledger::new();
    let shared = buffer.try_borrow(&mut ledger).unwrap();
    assert_eq!(shared.range(), range(BASE, BASE + 16));
    assert!(ledger.holds_shared(range(BASE, BASE + 16)));
    assert_eq!(buffer.try_borrow_mut(&mut ledger).unwrap_err().to_string(), "already borrowed");
    shared.release(&mut ledger);
    let exclusive = buffer.try_borrow_mut(&mut ledger).unwrap();
    assert_eq!(exclusive.range(), range(BASE, BASE + 16));
    assert!(ledger.holds_exclusive(range(BASE, BASE + 16)));
    assert_eq!(buffer.try_borrow(&mut ledger).unwrap_err().to_string(), "already mutably borrowed");
    assert_eq!(buffer.address(), BASE);
    assert_eq!(buffer.len(), 16);
}

#[test]
fn buffer_borrows_register_its_bytes() {
    let mut buffer = JsBuffer::from_raw_parts(BASE, 8).unwrap();
    let mut ledger = Ledger::new();
    let exclusive = buffer.try_borrow_mut(&mut ledger).unwrap();
    assert_eq!(exclusive.range(), range(BASE, BASE + 8));
    assert!(buffer.try_borrow(&mut ledger).is_err());
    exclusive.release(&mut ledger);
    let one = buffer.try_borrow(&mut ledger).unwrap();
    let two = buffer.try_borrow(&mut ledger).unwrap();
    assert_eq!(one.range(), two.range());
}

#[test]
fn typed_array_borrows_register_every_byte_of_every_element() {
    let mut doubles = JsTypedArray::<f64>::from_raw_parts(BASE, 2).unwrap();
    let tail = JsBuffer::from_raw_parts(BASE + 15, 1).unwrap();
    let after = JsBuffer::from_raw_parts(BASE + 16, 1).unwrap();
    let mut ledger = Ledger::new();
    let held = doubles.try_borrow_mut(&mut ledger).unwrap();
    assert_eq!(held.range(), range(BASE, BASE + 16));
    assert!(tail.try_borrow(&mut ledger).is_err());
    assert!(after.try_borrow(&mut ledger).is_ok());
}

#[test]
fn distinct_handles_to_one_region_conflict() {
    let mut view = JsTypedArray::<u8>::from_raw_parts(BASE, 16).unwrap();
    let mut backing = JsArrayBuffer::from_raw_parts(BASE, 16).unwrap();
    let mut ledger = Ledger::new();
    let reader = view.try_borrow(&mut ledger).unwrap();
    assert!(backing.try_borrow(&mut ledger).is_ok());
    assert!(backing.try_borrow_mut(&mut ledger).is_err());
    assert!(view.try_borrow_mut(&mut ledger).is_err());
    reader.release(&mut ledger);
    assert!(view.try_borrow_mut(&mut ledger).is_err());
}
