use witty::error::RuntimeError;
use witty::flat::FlatValue;
use witty::flatten::{lift_from, lower};
use witty::layout::TypeDescriptor;
use witty::marshal::{load, store};
use witty::memory::{GuestPointer, LinearMemory};
use witty::value::WitValue;

fn option_of(t: TypeDescriptor) -> TypeDescriptor {
    TypeDescriptor::Variant(vec![vec![], vec![t]])
}

fn sample_record() -> (TypeDescriptor, WitValue) {
    let t = TypeDescriptor::Record(vec![
        TypeDescriptor::U16,
        TypeDescriptor::Record(vec![TypeDescriptor::Bool, TypeDescriptor::S128]),
        option_of(TypeDescriptor::Float64),
        TypeDescriptor::S8,
    ]);
    let v = WitValue::Record(vec![
        WitValue::U16(60_000),
        WitValue::Record(vec![WitValue::Bool(true), WitValue::S128(-(1i128 << 100) - 7)]),
        WitValue::Variant(1, vec![WitValue::Float64((-0.000_08f64).to_bits())]),
        WitValue::S8(-125),
    ]);
    (t, v)
}

#[test]
fn memory_round_trip_of_nested_record() {
    let (t, v) = sample_record();
    let mut memory = LinearMemory::new(256, 64);
    store(&t, &v, &mut memory, GuestPointer(8)).expect("store");
    assert_eq!(load(&t, &memory, GuestPointer(8)), Ok(v));
}

#[test]
fn scalars_are_stored_little_endian() {
    let mut memory = LinearMemory::new(32, 32);
    store(&TypeDescriptor::U32, &WitValue::U32(0x0102_0304), &mut memory, GuestPointer(4))
        .expect("store");
    let bytes = memory.read(GuestPointer(4), 4).expect("read");
    assert_eq!(bytes, vec![4, 3, 2, 1]);
    store(&TypeDescriptor::S16, &WitValue::S16(-2), &mut memory, GuestPointer(10)).expect("store");
    assert_eq!(memory.read(GuestPointer(10), 2).expect("read"), vec![0xfe, 0xff]);
}

#[test]
fn record_fields_are_placed_at_padded_offsets() {
    let t = TypeDescriptor::Record(vec![TypeDescriptor::U8, TypeDescriptor::U32]);
    let v = WitValue::Record(vec![WitValue::U8(0xaa), WitValue::U32(0x11223344)]);
    let mut memory = LinearMemory::new(16, 16);
    store(&t, &v, &mut memory, GuestPointer(0)).expect("store");
    let bytes = memory.read(GuestPointer(0), 8).expect("read");
    assert_eq!(bytes, vec![0xaa, 0, 0, 0, 0x44, 0x33, 0x22, 0x11]);
}

#[test]
fn store_out_of_bounds_fails() {
    let mut memory = LinearMemory::new(8, 8);
    assert_eq!(
        store(&TypeDescriptor::U64, &WitValue::U64(1), &mut memory, GuestPointer(4)),
        Err(RuntimeError::OutOfBounds)
    );
    assert_eq!(
        load(&TypeDescriptor::U64, &memory, GuestPointer(1)),
        Err(RuntimeError::OutOfBounds)
    );
}

#[test]
fn invalid_discriminant_is_rejected_in_memory() {
    let t = TypeDescriptor::Variant(vec![vec![], vec![TypeDescriptor::U8], vec![]]);
    let mut memory = LinearMemory::new(16, 16);
    store(&TypeDescriptor::U8, &WitValue::U8(3), &mut memory, GuestPointer(0)).expect("store");
    assert_eq!(load(&t, &memory, GuestPointer(0)), Err(RuntimeError::InvalidLayout));
    store(&TypeDescriptor::U8, &WitValue::U8(2), &mut memory, GuestPointer(0)).expect("store");
    assert_eq!(load(&t, &memory, GuestPointer(0)), Ok(WitValue::Variant(2, vec![])));
}

#[test]
fn invalid_discriminant_is_rejected_in_flat_slots() {
    let t = option_of(TypeDescriptor::U32);
    let memory = LinearMemory::new(0, 0);
    assert_eq!(
        lift_from(&t, &vec![FlatValue::I32(2), FlatValue::I32(0)], &memory),
        Err(RuntimeError::InvalidLayout)
    );
    assert_eq!(
        lift_from(&t, &vec![FlatValue::I32(1), FlatValue::I32(5)], &memory),
        Ok(WitValue::Variant(1, vec![WitValue::U32(5)]))
    );
}

#[test]
fn lift_rejects_wrong_slot_count() {
    let memory = LinearMemory::new(0, 0);
    assert_eq!(
        lift_from(&TypeDescriptor::U128, &vec![FlatValue::I64(1)], &memory),
        Err(RuntimeError::InvalidLayout)
    );
}

#[test]
fn flat_round_trip_of_nested_record() {
    let (t, v) = sample_record();
    let mut memory = LinearMemory::new(0, 0);
    let flat = lower(&t, &v, &mut memory).expect("lower");
    assert_eq!(flat.len(), t.count());
    assert_eq!(lift_from(&t, &flat, &memory), Ok(v));
}

fn lower_alone(t: &TypeDescriptor, v: &WitValue) -> Vec<FlatValue> {
    let mut memory = LinearMemory::new(0, 0);
    lower(t, v, &mut memory).expect("lower")
}

fn lift_alone(t: &TypeDescriptor, flat: Vec<FlatValue>) -> Result<WitValue, RuntimeError> {
    lift_from(t, &flat, &LinearMemory::new(0, 0))
}

#[test]
fn small_integers_widen_and_narrow() {
    assert_eq!(lower_alone(&TypeDescriptor::S8, &WitValue::S8(-1)), vec![FlatValue::I32(0xffff_ffff)]);
    assert_eq!(lower_alone(&TypeDescriptor::U8, &WitValue::U8(200)), vec![FlatValue::I32(200)]);
    assert_eq!(
        lift_alone(&TypeDescriptor::S16, vec![FlatValue::I32(0x0001_ff38)]),
        Ok(WitValue::S16(-200))
    );
    assert_eq!(lift_alone(&TypeDescriptor::Bool, vec![FlatValue::I32(7)]), Ok(WitValue::Bool(true)));
}

#[test]
fn wide_integers_split_into_two_slots() {
    let value = (5u128 << 64) | 9;
    assert_eq!(
        lower_alone(&TypeDescriptor::U128, &WitValue::U128(value)),
        vec![FlatValue::I64(9), FlatValue::I64(5)]
    );
    assert_eq!(
        lift_alone(&TypeDescriptor::S128, vec![FlatValue::I64(u64::MAX), FlatValue::I64(u64::MAX)]),
        Ok(WitValue::S128(-1))
    );
}

#[test]
fn variant_payload_is_widened_into_overlay() {
    let t = TypeDescriptor::Variant(vec![
        vec![TypeDescriptor::Float32],
        vec![TypeDescriptor::Float64],
    ]);
    let bits = 1.5f32.to_bits();
    let v = WitValue::Variant(0, vec![WitValue::Float32(bits)]);
    let flat = lower_alone(&t, &v);
    assert_eq!(flat, vec![FlatValue::I32(0), FlatValue::I64(bits as u64)]);
    assert_eq!(lift_alone(&t, flat), Ok(v));
    let missing = TypeDescriptor::Variant(vec![vec![], vec![TypeDescriptor::U64]]);
    assert_eq!(
        lower_alone(&missing, &WitValue::Variant(0, vec![])),
        vec![FlatValue::I32(0), FlatValue::I64(0)]
    );
}

#[test]
fn strings_round_trip_through_memory() {
    let t = TypeDescriptor::Record(vec![TypeDescriptor::Text, TypeDescriptor::U8]);
    let v = WitValue::Record(vec![WitValue::Text("héllo, guest".to_string()), WitValue::U8(9)]);
    let mut memory = LinearMemory::new(128, 16);
    store(&t, &v, &mut memory, GuestPointer(0)).expect("store");
    assert_eq!(memory.heap_end(), 16 + "héllo, guest".len() as u32);
    assert_eq!(load(&t, &memory, GuestPointer(0)), Ok(v));
}

#[test]
fn lists_round_trip_through_memory() {
    let element = TypeDescriptor::Record(vec![TypeDescriptor::U16, TypeDescriptor::U32]);
    let t = TypeDescriptor::List(Box::new(element));
    let v = WitValue::List(vec![
        WitValue::Record(vec![WitValue::U16(1), WitValue::U32(2)]),
        WitValue::Record(vec![WitValue::U16(3), WitValue::U32(4)]),
        WitValue::Record(vec![WitValue::U16(5), WitValue::U32(6)]),
    ]);
    let mut memory = LinearMemory::new(128, 8);
    store(&t, &v, &mut memory, GuestPointer(0)).expect("store");
    // three elements of stride 8 starting at the heap's first free address
    assert_eq!(memory.heap_end(), 8 + 24);
    assert_eq!(memory.read(GuestPointer(0), 8).expect("read"), vec![8, 0, 0, 0, 3, 0, 0, 0]);
    assert_eq!(memory.read(GuestPointer(16), 2).expect("read"), vec![3, 0]);
    assert_eq!(load(&t, &memory, GuestPointer(0)), Ok(v));
}

#[test]
fn nested_lists_of_strings_round_trip() {
    let t = TypeDescriptor::List(Box::new(TypeDescriptor::List(Box::new(TypeDescriptor::Text))));
    let v = WitValue::List(vec![
        WitValue::List(vec![WitValue::Text("a".to_string()), WitValue::Text("bc".to_string())]),
        WitValue::List(vec![]),
    ]);
    let mut memory = LinearMemory::new(256, 8);
    store(&t, &v, &mut memory, GuestPointer(0)).expect("store");
    assert_eq!(load(&t, &memory, GuestPointer(0)), Ok(v));
}

#[test]
fn invalid_utf8_is_rejected() {
    let mut memory = LinearMemory::new(64, 32);
    let pointer_and_length = WitValue::Record(vec![WitValue::U32(40), WitValue::U32(2)]);
    let layout = TypeDescriptor::Record(vec![TypeDescriptor::U32, TypeDescriptor::U32]);
    store(&layout, &pointer_and_length, &mut memory, GuestPointer(0)).expect("store");
    memory.write(GuestPointer(40), &[0xc3, 0x28]).expect("write");
    assert_eq!(load(&TypeDescriptor::Text, &memory, GuestPointer(0)), Err(RuntimeError::InvalidString));
    memory.write(GuestPointer(40), &[0xc3, 0xa9]).expect("write");
    assert_eq!(
        load(&TypeDescriptor::Text, &memory, GuestPointer(0)),
        Ok(WitValue::Text("é".to_string()))
    );
}

#[test]
fn allocation_beyond_memory_fails() {
    let t = TypeDescriptor::Text;
    let mut memory = LinearMemory::new(16, 12);
    assert_eq!(
        store(&t, &WitValue::Text("too long".to_string()), &mut memory, GuestPointer(0)),
        Err(RuntimeError::AllocationFailed)
    );
}

#[test]
fn strings_and_lists_lower_to_address_and_length() {
    let t = TypeDescriptor::Record(vec![
        TypeDescriptor::Text,
        TypeDescriptor::List(Box::new(TypeDescriptor::U16)),
    ]);
    let v = WitValue::Record(vec![
        WitValue::Text("abc".to_string()),
        WitValue::List(vec![WitValue::U16(7), WitValue::U16(9)]),
    ]);
    let mut memory = LinearMemory::new(64, 10);
    let flat = lower(&t, &v, &mut memory).expect("lower");
    assert_eq!(
        flat,
        vec![FlatValue::I32(10), FlatValue::I32(3), FlatValue::I32(14), FlatValue::I32(2)]
    );
    assert_eq!(memory.read(GuestPointer(10), 3).expect("read"), b"abc".to_vec());
    assert_eq!(memory.read(GuestPointer(14), 4).expect("read"), vec![7, 0, 9, 0]);
    assert_eq!(lift_from(&t, &flat, &memory), Ok(v));
}

#[test]
fn lifting_a_string_outside_memory_fails() {
    let memory = LinearMemory::new(16, 0);
    assert_eq!(
        lift_from(&TypeDescriptor::Text, &vec![FlatValue::I32(12), FlatValue::I32(8)], &memory),
        Err(RuntimeError::OutOfBounds)
    );
}

#[test]
fn enum_payload_is_stored_at_its_aligned_offset() {
    let t = TypeDescriptor::Variant(vec![
        vec![],
        vec![TypeDescriptor::U8, TypeDescriptor::U16],
    ]);
    let v = WitValue::Variant(1, vec![WitValue::U8(0xaa), WitValue::U16(0x0102)]);
    let mut memory = LinearMemory::new(16, 16);
    store(&t, &v, &mut memory, GuestPointer(0)).expect("store");
    assert_eq!(memory.read(GuestPointer(0), 6).expect("read"), vec![1, 0, 0xaa, 0, 2, 1]);
    assert_eq!(load(&t, &memory, GuestPointer(0)), Ok(v));
}

#[test]
fn invalid_discriminant_is_rejected_for_non_inline_enums() {
    let t = option_of(TypeDescriptor::Text);
    let mut memory = LinearMemory::new(32, 32);
    store(&TypeDescriptor::U8, &WitValue::U8(5), &mut memory, GuestPointer(0)).expect("store");
    assert_eq!(load(&t, &memory, GuestPointer(0)), Err(RuntimeError::InvalidLayout));
    assert_eq!(
        lift_from(&t, &vec![FlatValue::I32(9), FlatValue::I32(0), FlatValue::I32(0)], &memory),
        Err(RuntimeError::InvalidLayout)
    );
}

#[test]
fn failed_store_releases_what_it_allocated() {
    let t = TypeDescriptor::List(Box::new(TypeDescriptor::Text));
    let v = WitValue::List(vec![
        WitValue::Text("ok".to_string()),
        WitValue::Text("far too long for the space left".to_string()),
    ]);
    let mut memory = LinearMemory::new(40, 8);
    assert_eq!(store(&t, &v, &mut memory, GuestPointer(0)), Err(RuntimeError::AllocationFailed));
    assert_eq!(memory.heap_end(), 8);
}

#[test]
fn list_store_reserves_length_times_stride() {
    let element = TypeDescriptor::Record(vec![TypeDescriptor::U64, TypeDescriptor::S32, TypeDescriptor::S16]);
    let t = TypeDescriptor::List(Box::new(element));
    let item = |a: u64| WitValue::Record(vec![WitValue::U64(a), WitValue::S32(-1), WitValue::S16(2)]);
    let v = WitValue::List(vec![item(1), item(2), item(3)]);
    let mut memory = LinearMemory::new(128, 12);
    store(&t, &v, &mut memory, GuestPointer(0)).expect("store");
    // elements of size 14 and stride 16, from the first 8-aligned address
    assert_eq!(memory.heap_end(), 16 + 3 * 16);
    assert_eq!(memory.read(GuestPointer(0), 4).expect("read"), vec![16, 0, 0, 0]);
    assert_eq!(load(&t, &memory, GuestPointer(0)), Ok(v));
}
