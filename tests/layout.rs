use witty::flat::{join, FlatType};
use witty::flat::FlatType::{F32, F64, I32, I64};
use witty::layout::{discriminant_width, padding, TypeDescriptor};

fn leaf() -> TypeDescriptor {
    TypeDescriptor::Record(vec![TypeDescriptor::Bool, TypeDescriptor::U128])
}

#[test]
fn simple_bool_wrapper() {
    let wrapper = TypeDescriptor::Record(vec![TypeDescriptor::Bool]);

    assert_eq!(wrapper.size(), 1);
    assert_eq!(wrapper.alignment(), 1);
    assert_eq!(wrapper.count(), 1);
}

#[test]
fn tuple_struct_without_padding() {
    let tuple = TypeDescriptor::Record(vec![
        TypeDescriptor::U64,
        TypeDescriptor::S32,
        TypeDescriptor::S16,
    ]);

    assert_eq!(tuple.size(), 14);
    assert_eq!(tuple.alignment(), 8);
    assert_eq!(tuple.count(), 3);
}

#[test]
fn tuple_struct_with_padding() {
    let tuple = TypeDescriptor::Record(vec![
        TypeDescriptor::U16,
        TypeDescriptor::U32,
        TypeDescriptor::S64,
    ]);

    assert_eq!(tuple.size(), 16);
    assert_eq!(tuple.alignment(), 8);
    assert_eq!(tuple.count(), 3);
}

#[test]
fn named_struct_with_double_padding() {
    let record = TypeDescriptor::Record(vec![
        TypeDescriptor::U16,
        TypeDescriptor::U32,
        TypeDescriptor::S8,
        TypeDescriptor::S64,
    ]);

    assert_eq!(record.size(), 24);
    assert_eq!(record.alignment(), 8);
    assert_eq!(record.count(), 4);
}

#[test]
fn nested_types() {
    let single = leaf();

    assert_eq!(single.size(), 24);
    assert_eq!(single.alignment(), 8);
    assert_eq!(single.count(), 3);

    let branch = TypeDescriptor::Record(vec![TypeDescriptor::U16, leaf(), leaf()]);

    assert_eq!(branch.size(), 56);
    assert_eq!(branch.alignment(), 8);
    assert_eq!(branch.count(), 7);
}

#[test]
fn empty_record_has_unit_alignment() {
    let empty = TypeDescriptor::Record(vec![]);
    assert_eq!(empty.size(), 0);
    assert_eq!(empty.alignment(), 1);
    assert_eq!(empty.count(), 0);
    assert_eq!(TypeDescriptor::Unit.count(), 0);
}

#[test]
fn nested_record_flattens_to_concatenated_slots() {
    let branch = TypeDescriptor::Record(vec![TypeDescriptor::U16, leaf(), TypeDescriptor::Float32]);
    assert_eq!(
        branch.flat_layout(),
        vec![
            FlatType::I32,
            FlatType::I32,
            FlatType::I64,
            FlatType::I64,
            FlatType::F32,
        ]
    );
}

#[test]
fn primitive_sizes_and_alignments() {
    let cases = vec![
        (TypeDescriptor::Bool, 1, 1),
        (TypeDescriptor::U8, 1, 1),
        (TypeDescriptor::S16, 2, 2),
        (TypeDescriptor::U32, 4, 4),
        (TypeDescriptor::Float32, 4, 4),
        (TypeDescriptor::S64, 8, 8),
        (TypeDescriptor::Float64, 8, 8),
        (TypeDescriptor::U128, 16, 8),
        (TypeDescriptor::Text, 8, 4),
        (TypeDescriptor::List(Box::new(TypeDescriptor::U64)), 8, 4),
    ];
    for (t, size, alignment) in cases {
        assert_eq!(t.size(), size);
        assert_eq!(t.alignment(), alignment);
    }
}

#[test]
fn discriminant_width_follows_variant_count() {
    assert_eq!(discriminant_width(1), 1);
    assert_eq!(discriminant_width(256), 1);
    assert_eq!(discriminant_width(257), 2);
    assert_eq!(discriminant_width(65536), 2);
    assert_eq!(discriminant_width(65537), 4);
}

#[test]
fn enum_with_many_variants_uses_wider_discriminant() {
    let small: Vec<Vec<TypeDescriptor>> = (0..256).map(|_| vec![]).collect();
    let large: Vec<Vec<TypeDescriptor>> = (0..257).map(|_| vec![]).collect();
    assert_eq!(TypeDescriptor::Variant(small).size(), 1);
    let wide = TypeDescriptor::Variant(large);
    assert_eq!(wide.size(), 2);
    assert_eq!(wide.alignment(), 2);
}

#[test]
fn option_layout_pads_payload() {
    let option = TypeDescriptor::Variant(vec![vec![], vec![TypeDescriptor::U32]]);
    assert_eq!(option.size(), 8);
    assert_eq!(option.alignment(), 4);
    assert_eq!(option.flat_layout(), vec![FlatType::I32, FlatType::I32]);
}

#[test]
fn variant_overlay_joins_slot_classes() {
    let mixed = TypeDescriptor::Variant(vec![
        vec![TypeDescriptor::Float32, TypeDescriptor::Float32],
        vec![TypeDescriptor::U32, TypeDescriptor::Float64],
        vec![TypeDescriptor::Float32],
    ]);
    assert_eq!(
        mixed.flat_layout(),
        vec![FlatType::I32, FlatType::I32, FlatType::I64]
    );
    let result = TypeDescriptor::Variant(vec![
        vec![TypeDescriptor::Float64],
        vec![TypeDescriptor::Float64, TypeDescriptor::U8],
    ]);
    assert_eq!(
        result.flat_layout(),
        vec![FlatType::I32, FlatType::F64, FlatType::I32]
    );
}

#[test]
fn join_table() {
    let table = [
        (I32, I32, I32),
        (I32, I64, I64),
        (I32, F32, I32),
        (I32, F64, I64),
        (I64, I32, I64),
        (I64, I64, I64),
        (I64, F32, I64),
        (I64, F64, I64),
        (F32, I32, I32),
        (F32, I64, I64),
        (F32, F32, F32),
        (F32, F64, I64),
        (F64, I32, I64),
        (F64, I64, I64),
        (F64, F32, I64),
        (F64, F64, F64),
    ];
    for (a, b, joined) in table {
        assert_eq!(join(a, b), joined);
    }
}

#[test]
fn padding_reaches_next_multiple() {
    assert_eq!(padding(0, 8), 0);
    assert_eq!(padding(1, 8), 7);
    assert_eq!(padding(5, 4), 3);
    assert_eq!(padding(14, 2), 0);
    assert_eq!(padding(3, 1), 0);
}

#[test]
fn enum_payload_is_an_aligned_record() {
    let t = TypeDescriptor::Variant(vec![vec![TypeDescriptor::U8, TypeDescriptor::U16]]);
    // discriminant at 0, payload record (u8, u16) of size 4 at offset 2
    assert_eq!(t.size(), 6);
    assert_eq!(t.alignment(), 2);
    let mixed = TypeDescriptor::Variant(vec![
        vec![TypeDescriptor::U8],
        vec![TypeDescriptor::U8, TypeDescriptor::U64],
    ]);
    // the second payload (size 16, alignment 8) starts at 8
    assert_eq!(mixed.size(), 24);
}
