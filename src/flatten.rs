//! Lowering values into flat register-class slots and lifting them back.
use vstd::prelude::*;
use vstd::utf8::{encode_utf8, encode_utf8_decode_utf8, encode_utf8_valid_utf8};

use crate::error::RuntimeError;
use crate::flat::{
    convert, convert_spec, join_spec, neutral, neutral_spec, FlatType, FlatValue, Sealed,
};
use crate::layout::{
    align_up, alignment_of,
    all_well_formed, fields_flat, flat_of, lemma_all_variants_well_formed, lemma_all_well_formed,
    lemma_fields_end_step, merge_flat, variants_flat, well_formed, TypeDescriptor,
};
use crate::marshal::{
    agree_on, decode_list, elements_at, lemma_extends_trans, load_text, store_list, store_text,
    list_element, list_fits, text_at, text_fits, out_of_line_fits, encoded_heap_end,
    fields_heap_end, lemma_fields_heap_end_prefix,
};
use crate::memory::{lemma_preserves_trans, preserves_below_heap, LinearMemory};
use crate::value::{
    all_inline, fields_have_types, has_type, is_inline, lemma_all_cases_inline,
    lemma_all_inline, lemma_fields_have_types, lemma_models_index, lemma_models_len,
    lemma_models_push, model, models, ValueModel, WitValue,
};

verus! {

/// The flat slots of a scalar value.
pub open spec fn scalar_lower(m: ValueModel) -> Seq<FlatValue> {
    match m {
        ValueModel::Bool(b) => seq![FlatValue::I32(if b { 1 } else { 0 })],
        ValueModel::U8(x) => seq![FlatValue::I32(x as u32)],
        ValueModel::S8(x) => seq![FlatValue::I32(x as i32 as u32)],
        ValueModel::U16(x) => seq![FlatValue::I32(x as u32)],
        ValueModel::S16(x) => seq![FlatValue::I32(x as i32 as u32)],
        ValueModel::U32(x) => seq![FlatValue::I32(x)],
        ValueModel::S32(x) => seq![FlatValue::I32(x as u32)],
        ValueModel::U64(x) => seq![FlatValue::I64(x)],
        ValueModel::S64(x) => seq![FlatValue::I64(x as u64)],
        ValueModel::U128(x) => seq![FlatValue::I64(x as u64), FlatValue::I64((x >> 64u128) as u64)],
        ValueModel::S128(x) => seq![
            FlatValue::I64(x as u128 as u64),
            FlatValue::I64(((x as u128) >> 64u128) as u64),
        ],
        ValueModel::Float32(b) => seq![FlatValue::F32(b)],
        ValueModel::Float64(b) => seq![FlatValue::F64(b)],
        _ => seq![],
    }
}

/// Joins two 64-bit halves into a 128-bit integer.
pub open spec fn join_halves(low: u64, high: u64) -> u128 {
    ((high as u128) << 64u128) | (low as u128)
}

/// The scalar value of type `t` held in the first slots of `x`.
pub open spec fn scalar_lift(t: TypeDescriptor, x: Seq<FlatValue>) -> ValueModel {
    match t {
        TypeDescriptor::Bool => ValueModel::Bool(x[0].bits() != 0),
        TypeDescriptor::U8 => ValueModel::U8(x[0].bits() as u8),
        TypeDescriptor::S8 => ValueModel::S8(x[0].bits() as u8 as i8),
        TypeDescriptor::U16 => ValueModel::U16(x[0].bits() as u16),
        TypeDescriptor::S16 => ValueModel::S16(x[0].bits() as u16 as i16),
        TypeDescriptor::U32 => ValueModel::U32(x[0].bits() as u32),
        TypeDescriptor::S32 => ValueModel::S32(x[0].bits() as u32 as i32),
        TypeDescriptor::U64 => ValueModel::U64(x[0].bits()),
        TypeDescriptor::S64 => ValueModel::S64(x[0].bits() as i64),
        TypeDescriptor::U128 => ValueModel::U128(join_halves(x[0].bits(), x[1].bits())),
        TypeDescriptor::S128 => ValueModel::S128(join_halves(x[0].bits(), x[1].bits()) as i128),
        TypeDescriptor::Float32 => ValueModel::Float32(x[0].bits() as u32),
        TypeDescriptor::Float64 => ValueModel::Float64(x[0].bits()),
        _ => ValueModel::Unit,
    }
}

/// `values` widened into the overlay `types`; missing slots take the neutral value.
pub open spec fn widen(values: Seq<FlatValue>, types: Seq<FlatType>) -> Seq<FlatValue> {
    Seq::new(
        types.len(),
        |i: int|
            if i < values.len() {
                convert_spec(values[i], types[i])
            } else {
                neutral_spec(types[i])
            },
    )
}

/// The first slots of an overlay, narrowed back into a case's own `types`.
pub open spec fn narrow(values: Seq<FlatValue>, types: Seq<FlatType>) -> Seq<FlatValue> {
    Seq::new(types.len(), |i: int| convert_spec(values[i], types[i]))
}

/// The flat slots of the inline value `m` of type `t`.
pub open spec fn lower_spec(t: TypeDescriptor, m: ValueModel) -> Seq<FlatValue>
    decreases m,
{
    match (m, t) {
        (ValueModel::Record(fields), TypeDescriptor::Record(types)) => fields_lower(types@, fields),
        (ValueModel::Variant(d, fields), TypeDescriptor::Variant(cases)) => seq![
            FlatValue::I32(d),
        ] + widen(fields_lower(cases@[d as int]@, fields), variants_flat(cases@)),
        _ => scalar_lower(m),
    }
}

pub open spec fn fields_lower(types: Seq<TypeDescriptor>, fields: Seq<ValueModel>) -> Seq<
    FlatValue,
>
    decreases fields,
{
    if fields.len() == 0 || types.len() == 0 {
        seq![]
    } else {
        fields_lower(types.drop_last(), fields.drop_last()) + lower_spec(types.last(), fields.last())
    }
}

/// The value of type `t` held in the first slots of `x`, with string bytes and list elements
/// read from `mem`; `None` where a discriminant names no case or out-of-line data cannot be read.
pub open spec fn lift_spec(t: TypeDescriptor, x: Seq<FlatValue>, mem: Seq<u8>) -> Option<ValueModel>
    decreases t,
{
    match t {
        TypeDescriptor::Unit => Some(ValueModel::Unit),
        TypeDescriptor::Record(types) => match fields_lift(types@, x, mem) {
            Some(fields) => Some(ValueModel::Record(fields)),
            None => None,
        },
        TypeDescriptor::Variant(cases) => {
            let d = x[0].bits();
            if d >= cases@.len() {
                None
            } else {
                let case = cases@[d as int]@;
                match fields_lift(
                    case,
                    narrow(x.subrange(1, x.len() as int), fields_flat(case)),
                    mem,
                ) {
                    Some(fields) => Some(ValueModel::Variant(d as u32, fields)),
                    None => None,
                }
            }
        },
        TypeDescriptor::Text => text_at(
            (x[0].bits() as u32) as nat,
            (x[1].bits() as u32) as nat,
            mem,
        ),
        TypeDescriptor::List(element) => match elements_at(
            *element,
            mem,
            (x[0].bits() as u32) as nat,
            (x[1].bits() as u32) as nat,
        ) {
            Some(items) => Some(ValueModel::List(items)),
            None => None,
        },
        _ => Some(scalar_lift(t, x)),
    }
}

pub open spec fn fields_lift(types: Seq<TypeDescriptor>, x: Seq<FlatValue>, mem: Seq<u8>) -> Option<
    Seq<ValueModel>,
>
    decreases types,
{
    if types.len() == 0 {
        Some(seq![])
    } else {
        let n = fields_flat(types.drop_last()).len() as int;
        match fields_lift(types.drop_last(), x, mem) {
            Some(fields) => match lift_spec(types.last(), x.subrange(n, x.len() as int), mem) {
                Some(last) => Some(fields.push(last)),
                None => None,
            },
            None => None,
        }
    }
}

/// The flat slots of `m`, a value of type `t`, when its out-of-line data is placed from heap end
/// `h` on: a string or a list becomes the address of its allocation and its length.
pub open spec fn lowered_slots(t: TypeDescriptor, m: ValueModel, h: nat) -> Seq<FlatValue>
    decreases m,
{
    match (m, t) {
        (ValueModel::Text(text), TypeDescriptor::Text) => seq![
            FlatValue::I32(h as u32),
            FlatValue::I32(encode_utf8(text).len() as u32),
        ],
        (ValueModel::List(items), TypeDescriptor::List(element)) => seq![
            FlatValue::I32(align_up(h, alignment_of(*element)) as u32),
            FlatValue::I32(items.len() as u32),
        ],
        (ValueModel::Record(fields), TypeDescriptor::Record(types)) => fields_lowered(
            types@,
            fields,
            h,
        ),
        (ValueModel::Variant(d, fields), TypeDescriptor::Variant(cases)) => seq![
            FlatValue::I32(d),
        ] + widen(fields_lowered(cases@[d as int]@, fields, h), variants_flat(cases@)),
        _ => scalar_lower(m),
    }
}

/// The fields' flat slots in order, their out-of-line data placed from heap end `h` on.
pub open spec fn fields_lowered(types: Seq<TypeDescriptor>, fields: Seq<ValueModel>, h: nat) -> Seq<
    FlatValue,
>
    decreases fields,
{
    if fields.len() == 0 || types.len() == 0 {
        seq![]
    } else {
        match fields_heap_end(types.drop_last(), fields.drop_last(), h) {
            Some(middle) => fields_lowered(types.drop_last(), fields.drop_last(), h) + lowered_slots(
                types.last(),
                fields.last(),
                middle,
            ),
            None => seq![],
        }
    }
}

/// Lowering a scalar and lifting it back restores it.
pub proof fn lemma_scalar_round_trip(t: TypeDescriptor, m: ValueModel, x: Seq<FlatValue>)
    requires
        has_type(m, t),
        x.len() >= scalar_lower(m).len(),
        x.subrange(0, scalar_lower(m).len() as int) == scalar_lower(m),
        !(t is Unit || t is Record || t is Variant || t is Text || t is List),
    ensures
        scalar_lift(t, x) == m,
{
    let l = scalar_lower(m);
    assert(x[0] == l[0]);
    match m {
        ValueModel::U8(v) => {
            assert(((v as u32) as u64) as u8 == v) by (bit_vector);
        },
        ValueModel::S8(v) => {
            assert((((v as i32) as u32) as u64) as u8 as i8 == v) by (bit_vector);
        },
        ValueModel::U16(v) => {
            assert(((v as u32) as u64) as u16 == v) by (bit_vector);
        },
        ValueModel::S16(v) => {
            assert((((v as i32) as u32) as u64) as u16 as i16 == v) by (bit_vector);
        },
        ValueModel::U32(v) => {
            assert((v as u64) as u32 == v) by (bit_vector);
        },
        ValueModel::S32(v) => {
            assert(((v as u32) as u64) as u32 as i32 == v) by (bit_vector);
        },
        ValueModel::S64(v) => {
            assert((v as u64) as i64 == v) by (bit_vector);
        },
        ValueModel::U128(v) => {
            assert(x[1] == l[1]);
            assert(((((v >> 64u128) as u64) as u128) << 64u128) | ((v as u64) as u128) == v)
                by (bit_vector);
        },
        ValueModel::S128(v) => {
            assert(x[1] == l[1]);
            assert((((((v as u128) >> 64u128) as u64) as u128) << 64u128) | (((v as u128) as u64) as u128)
                == v as u128) by (bit_vector);
            assert((v as u128) as i128 == v) by (bit_vector);
        },
        ValueModel::Float32(v) => {
            assert((v as u64) as u32 == v) by (bit_vector);
        },
        _ => {},
    }
}


/// The register classes of a sequence of slots.
pub open spec fn kinds(values: Seq<FlatValue>) -> Seq<FlatType> {
    Seq::new(values.len(), |i: int| values[i].flat_type())
}

/// Lowering produces slots of exactly the classes of the type's flat representation.
pub proof fn lemma_lower_shape(t: TypeDescriptor, m: ValueModel)
    requires
        has_type(m, t),
        is_inline(t),
    ensures
        kinds(lower_spec(t, m)) == flat_of(t),
    decreases m,
{
    match (m, t) {
        (ValueModel::Record(fields), TypeDescriptor::Record(types)) => {
            lemma_fields_lower_shape(types@, fields);
        },
        (ValueModel::Variant(d, fields), TypeDescriptor::Variant(cases)) => {
            lemma_all_cases_inline(cases@, d as int);
            lemma_fields_lower_shape(cases@[d as int]@, fields);
            let w = widen(fields_lower(cases@[d as int]@, fields), variants_flat(cases@));
            assert(kinds(seq![FlatValue::I32(d)] + w) =~= flat_of(t));
        },
        _ => {
            assert(kinds(lower_spec(t, m)) =~= flat_of(t));
        },
    }
}

pub proof fn lemma_fields_lower_shape(types: Seq<TypeDescriptor>, fields: Seq<ValueModel>)
    requires
        fields_have_types(fields, types),
        all_inline(types),
    ensures
        kinds(fields_lower(types, fields)) == fields_flat(types),
    decreases fields,
{
    if fields.len() == 0 {
        assert(kinds(fields_lower(types, fields)) =~= fields_flat(types));
    } else {
        lemma_fields_lower_shape(types.drop_last(), fields.drop_last());
        lemma_lower_shape(types.last(), fields.last());
        let a = fields_lower(types.drop_last(), fields.drop_last());
        let b = lower_spec(types.last(), fields.last());
        assert(kinds(a + b) =~= kinds(a) + kinds(b));
    }
}

/// Each position of a merged layout absorbs the classes it was merged from.
pub proof fn lemma_merge_absorbs(a: Seq<FlatType>, b: Seq<FlatType>)
    ensures
        merge_flat(a, b).len() >= a.len(),
        merge_flat(a, b).len() >= b.len(),
        forall|j: int|
            0 <= j < a.len() ==> join_spec(#[trigger] merge_flat(a, b)[j], a[j]) == merge_flat(
                a,
                b,
            )[j],
        forall|j: int|
            0 <= j < b.len() ==> join_spec(#[trigger] merge_flat(a, b)[j], b[j]) == merge_flat(
                a,
                b,
            )[j],
{
}

/// The overlay of all cases absorbs each case's own flat representation.
pub proof fn lemma_variants_absorb(cases: Seq<Vec<TypeDescriptor>>, i: int)
    requires
        0 <= i < cases.len(),
    ensures
        fields_flat(cases[i]@).len() <= variants_flat(cases).len(),
        forall|j: int|
            0 <= j < fields_flat(cases[i]@).len() ==> join_spec(
                #[trigger] variants_flat(cases)[j],
                fields_flat(cases[i]@)[j],
            ) == variants_flat(cases)[j],
    decreases cases.len(),
{
    let prev = variants_flat(cases.drop_last());
    let last = fields_flat(cases.last()@);
    lemma_merge_absorbs(prev, last);
    if i < cases.len() - 1 {
        lemma_variants_absorb(cases.drop_last(), i);
        assert(cases.drop_last()[i] == cases[i]);
        let own = fields_flat(cases[i]@);
        assert forall|j: int| 0 <= j < own.len() implies join_spec(
            #[trigger] variants_flat(cases)[j],
            own[j],
        ) == variants_flat(cases)[j] by {
            assert(join_spec(prev[j], own[j]) == prev[j]);
            assert(join_spec(merge_flat(prev, last)[j], prev[j]) == merge_flat(prev, last)[j]);
        }
    }
}

/// Widening into a class that absorbs the slot's own class, then narrowing back, restores it.
pub proof fn lemma_convert_absorbed(v: FlatValue, joined: FlatType)
    requires
        join_spec(joined, v.flat_type()) == joined,
    ensures
        convert_spec(convert_spec(v, joined), v.flat_type()) == v,
{
    match v {
        FlatValue::I32(b) | FlatValue::F32(b) => {
            assert((b as u64) as u32 == b) by (bit_vector);
            assert(((b as u64) as u32 as u64) as u32 == b) by (bit_vector);
        },
        _ => {},
    }
}

/// Lifting what lowering produced gives back the value.
pub proof fn lemma_lower_lift(t: TypeDescriptor, m: ValueModel, x: Seq<FlatValue>, mem: Seq<u8>)
    requires
        has_type(m, t),
        is_inline(t),
        x.len() >= lower_spec(t, m).len(),
        x.subrange(0, lower_spec(t, m).len() as int) == lower_spec(t, m),
    ensures
        lift_spec(t, x, mem) == Some(m),
    decreases m,
{
    match (m, t) {
        (ValueModel::Record(fields), TypeDescriptor::Record(types)) => {
            lemma_fields_lower_lift(types@, fields, x, mem);
        },
        (ValueModel::Variant(d, fields), TypeDescriptor::Variant(cases)) => {
            let case = cases@[d as int]@;
            let low = fields_lower(case, fields);
            let vf = variants_flat(cases@);
            let lowered = seq![FlatValue::I32(d)] + widen(low, vf);
            lemma_all_cases_inline(cases@, d as int);
            lemma_fields_lower_shape(case, fields);
            lemma_variants_absorb(cases@, d as int);
            assert(x[0] == lowered[0]);
            assert((d as u64) as u32 == d) by (bit_vector);
            let rest = x.subrange(1, x.len() as int);
            let narrowed = narrow(rest, fields_flat(case));
            assert forall|j: int| 0 <= j < low.len() implies narrowed[j] == low[j] by {
                assert(rest[j] == x[j + 1]);
                assert(x[j + 1] == lowered[j + 1]);
                assert(kinds(low)[j] == fields_flat(case)[j]);
                lemma_convert_absorbed(low[j], vf[j]);
            }
            assert(narrowed =~= low);
            assert(low.subrange(0, low.len() as int) =~= low);
            lemma_fields_lower_lift(case, fields, low, mem);
        },
        _ => {
            if !(t is Unit) {
                lemma_scalar_round_trip(t, m, x);
            }
        },
    }
}

pub proof fn lemma_fields_lower_lift(
    types: Seq<TypeDescriptor>,
    fields: Seq<ValueModel>,
    x: Seq<FlatValue>,
    mem: Seq<u8>,
)
    requires
        fields_have_types(fields, types),
        all_inline(types),
        x.len() >= fields_lower(types, fields).len(),
        x.subrange(0, fields_lower(types, fields).len() as int) == fields_lower(types, fields),
    ensures
        fields_lift(types, x, mem) == Some(fields),
    decreases fields,
{
    if fields.len() == 0 {
        assert(fields =~= seq![]);
    } else {
        let a = fields_lower(types.drop_last(), fields.drop_last());
        let b = lower_spec(types.last(), fields.last());
        assert(x.subrange(0, a.len() as int) =~= (a + b).subrange(0, a.len() as int));
        assert((a + b).subrange(0, a.len() as int) =~= a);
        lemma_fields_lower_lift(types.drop_last(), fields.drop_last(), x, mem);
        lemma_fields_lower_shape(types.drop_last(), fields.drop_last());
        assert(kinds(a).len() == a.len());
        let rest = x.subrange(a.len() as int, x.len() as int);
        assert(rest.subrange(0, b.len() as int) =~= b) by {
            assert forall|j: int| 0 <= j < b.len() implies rest[j] == b[j] by {
                assert(x.subrange(0, (a + b).len() as int)[a.len() + j] == (a + b)[a.len() + j]);
            }
        }
        lemma_fields_lower_lift_last(types, fields, rest, mem);
        assert(fields.drop_last().push(fields.last()) =~= fields);
    }
}

proof fn lemma_fields_lower_lift_last(
    types: Seq<TypeDescriptor>,
    fields: Seq<ValueModel>,
    rest: Seq<FlatValue>,
    mem: Seq<u8>,
)
    requires
        fields.len() > 0,
        fields_have_types(fields, types),
        all_inline(types),
        rest.len() >= lower_spec(types.last(), fields.last()).len(),
        rest.subrange(0, lower_spec(types.last(), fields.last()).len() as int) == lower_spec(
            types.last(),
            fields.last(),
        ),
    ensures
        lift_spec(types.last(), rest, mem) == Some(fields.last()),
    decreases fields, 0int,
{
    lemma_lower_lift(types.last(), fields.last(), rest, mem);
}


/// If a prefix of the fields fails to lift, so do all of them.
pub proof fn lemma_fields_lift_prefix_none(
    types: Seq<TypeDescriptor>,
    x: Seq<FlatValue>,
    mem: Seq<u8>,
    i: int,
)
    requires
        0 <= i <= types.len(),
        fields_lift(types.take(i), x, mem) is None,
    ensures
        fields_lift(types, x, mem) is None,
    decreases types.len(),
{
    if i == types.len() {
        assert(types.take(i) =~= types);
    } else {
        assert(types.drop_last().take(i) =~= types.take(i));
        lemma_fields_lift_prefix_none(types.drop_last(), x, mem, i);
    }
}

/// Lifting looks at no more slots than the type's flat representation holds.
pub proof fn lemma_lift_prefix(t: TypeDescriptor, x1: Seq<FlatValue>, x2: Seq<FlatValue>, mem: Seq<u8>)
    requires
        x1.len() >= flat_of(t).len(),
        x2.len() >= flat_of(t).len(),
        x1.subrange(0, flat_of(t).len() as int) == x2.subrange(0, flat_of(t).len() as int),
    ensures
        lift_spec(t, x1, mem) == lift_spec(t, x2, mem),
    decreases t,
{
    let n = flat_of(t).len() as int;
    assert forall|j: int| 0 <= j < n implies x1[j] == x2[j] by {
        assert(x1.subrange(0, n)[j] == x2.subrange(0, n)[j]);
    }
    match t {
        TypeDescriptor::Record(types) => {
            lemma_fields_lift_prefix(types@, x1, x2, mem);
        },
        TypeDescriptor::Variant(cases) => {
            let d = x1[0].bits();
            if d < cases@.len() {
                lemma_variants_absorb(cases@, d as int);
                let own = fields_flat(cases@[d as int]@);
                assert(narrow(x1.subrange(1, x1.len() as int), own) =~= narrow(
                    x2.subrange(1, x2.len() as int),
                    own,
                ));
            }
        },
        _ => {},
    }
}

pub proof fn lemma_fields_lift_prefix(
    types: Seq<TypeDescriptor>,
    x1: Seq<FlatValue>,
    x2: Seq<FlatValue>,
    mem: Seq<u8>,
)
    requires
        x1.len() >= fields_flat(types).len(),
        x2.len() >= fields_flat(types).len(),
        x1.subrange(0, fields_flat(types).len() as int) == x2.subrange(
            0,
            fields_flat(types).len() as int,
        ),
    ensures
        fields_lift(types, x1, mem) == fields_lift(types, x2, mem),
    decreases types,
{
    if types.len() > 0 {
        let dl = types.drop_last();
        let last = types.last();
        let all = fields_flat(types).len() as int;
        let n = fields_flat(dl).len() as int;
        assert(x1.subrange(0, n) =~= x1.subrange(0, all).subrange(0, n));
        assert(x2.subrange(0, n) =~= x2.subrange(0, all).subrange(0, n));
        lemma_fields_lift_prefix(dl, x1, x2, mem);
        let r1 = x1.subrange(n, x1.len() as int);
        let r2 = x2.subrange(n, x2.len() as int);
        assert(r1.subrange(0, flat_of(last).len() as int) =~= x1.subrange(0, all).subrange(n, all));
        assert(r2.subrange(0, flat_of(last).len() as int) =~= x2.subrange(0, all).subrange(n, all));
        lemma_lift_prefix(last, r1, r2, mem);
    }
}

/// Narrowing the overlay of a case's slots gives the case's slots back.
pub proof fn lemma_narrow_widen(cases: Seq<Vec<TypeDescriptor>>, d: int, part: Seq<FlatValue>)
    requires
        0 <= d < cases.len(),
        kinds(part) == fields_flat(cases[d]@),
    ensures
        narrow(widen(part, variants_flat(cases)), fields_flat(cases[d]@)) == part,
{
    lemma_variants_absorb(cases, d);
    let vf = variants_flat(cases);
    let own = fields_flat(cases[d]@);
    assert forall|j: int| 0 <= j < part.len() implies narrow(widen(part, vf), own)[j] == part[j] by {
        assert(kinds(part)[j] == own[j]);
        lemma_convert_absorbed(part[j], vf[j]);
    }
    assert(narrow(widen(part, vf), own) =~= part);
}

/// Widening one case's flat slots into the overlay of all cases.
pub trait JoinFlatLayouts: Sealed {
    spec fn case_slots(&self) -> Seq<FlatValue>;

    /// The slots converted into the overlay's classes; positions past them take the neutral
    /// value.
    fn join_into(&self, overlay: &Vec<FlatType>) -> (r: Vec<FlatValue>)
        ensures
            r@ == widen(self.case_slots(), overlay@),
    ;
}

/// Narrowing overlay slots back into one case's own flat layout.
pub trait SplitFlatLayouts: Sealed {
    spec fn overlay_slots(&self) -> Seq<FlatValue>;

    /// The slots from `start` on, converted into the classes of `own`.
    fn split_into(&self, start: usize, own: &Vec<FlatType>) -> (r: Vec<FlatValue>)
        requires
            start + own@.len() <= self.overlay_slots().len(),
        ensures
            r@ == narrow(
                self.overlay_slots().subrange(start as int, self.overlay_slots().len() as int),
                own@,
            ),
    ;
}

impl JoinFlatLayouts for Vec<FlatValue> {
    open spec fn case_slots(&self) -> Seq<FlatValue> {
        self@
    }

    fn join_into(&self, overlay: &Vec<FlatType>) -> (r: Vec<FlatValue>) {
        let values = self;
        let types = overlay;
        let mut r: Vec<FlatValue> = Vec::new();
        let mut i: usize = 0;
        while i < types.len()
            invariant
                i <= types@.len(),
                r@ =~= widen(values@, types@).take(i as int),
            decreases types@.len() - i,
        {
            let slot = if i < values.len() {
                convert(values[i], types[i])
            } else {
                neutral(types[i])
            };
            r.push(slot);
            i = i + 1;
        }
        assert(r@ =~= widen(values@, types@));
        r
    }
}

impl SplitFlatLayouts for Vec<FlatValue> {
    open spec fn overlay_slots(&self) -> Seq<FlatValue> {
        self@
    }

    fn split_into(&self, start: usize, own: &Vec<FlatType>) -> (r: Vec<FlatValue>) {
        let x = self;
        let types = own;
        let mut r: Vec<FlatValue> = Vec::new();
        let n = x.len();
        let mut i: usize = 0;
        while i < types.len()
            invariant
                i <= types@.len(),
                n == x@.len(),
                start + types@.len() <= x@.len(),
                r@ =~= narrow(x@.subrange(start as int, x@.len() as int), types@).take(i as int),
            decreases types@.len() - i,
        {
            r.push(convert(x[start + i], types[i]));
            i = i + 1;
        }
        assert(r@ =~= narrow(x@.subrange(start as int, x@.len() as int), types@));
        r
    }
}

/// Appends the flat slots of a scalar to `out`.
fn lower_scalar_into(v: &WitValue, out: &mut Vec<FlatValue>)
    requires
        !(v is Text || v is List || v is Record || v is Variant),
    ensures
        final(out)@ == old(out)@ + scalar_lower(model(*v)),
{
    let ghost start = out@;
    match v {
        WitValue::Unit => {},
        WitValue::Bool(b) => out.push(FlatValue::I32(if *b { 1 } else { 0 })),
        WitValue::U8(x) => out.push(FlatValue::I32(*x as u32)),
        WitValue::S8(x) => out.push(FlatValue::I32(*x as i32 as u32)),
        WitValue::U16(x) => out.push(FlatValue::I32(*x as u32)),
        WitValue::S16(x) => out.push(FlatValue::I32(*x as i32 as u32)),
        WitValue::U32(x) => out.push(FlatValue::I32(*x)),
        WitValue::S32(x) => out.push(FlatValue::I32(*x as u32)),
        WitValue::U64(x) => out.push(FlatValue::I64(*x)),
        WitValue::S64(x) => out.push(FlatValue::I64(*x as u64)),
        WitValue::U128(x) => {
            out.push(FlatValue::I64(*x as u64));
            out.push(FlatValue::I64((*x >> 64u128) as u64));
        },
        WitValue::S128(x) => {
            let bits = *x as u128;
            out.push(FlatValue::I64(bits as u64));
            out.push(FlatValue::I64((bits >> 64u128) as u64));
        },
        WitValue::Float32(b) => out.push(FlatValue::F32(*b)),
        WitValue::Float64(b) => out.push(FlatValue::F64(*b)),
        _ => {},
    }
    assert(out@ =~= start + scalar_lower(model(*v)));
}

/// Appends the flat slots of `v`, a value of type `t`, to `out`; string bytes and list
/// elements go to fresh allocations in `memory`.
fn lower_into(t: &TypeDescriptor, v: &WitValue, memory: &mut LinearMemory, out: &mut Vec<FlatValue>) -> (r:
    Result<(), RuntimeError>)
    requires
        has_type(model(*v), *t),
        well_formed(*t),
        old(memory).wf(),
    ensures
        final(memory).wf(),
        preserves_below_heap(*old(memory), *final(memory)),
        final(out)@.len() >= old(out)@.len(),
        final(out)@.subrange(0, old(out)@.len() as int) == old(out)@,
        is_inline(*t) ==> r is Ok && final(out)@ == old(out)@ + lower_spec(*t, model(*v))
            && *final(memory) == *old(memory),
        r is Ok ==> kinds(final(out)@.subrange(old(out)@.len() as int, final(out)@.len() as int))
            == flat_of(*t),
        r is Ok ==> forall|mem: Seq<u8>|
            agree_on(
                mem,
                final(memory).spec_bytes(),
                old(memory).spec_heap_end(),
                final(memory).spec_heap_end(),
            ) ==> #[trigger] lift_spec(
                *t,
                final(out)@.subrange(old(out)@.len() as int, final(out)@.len() as int),
                mem,
            ) == Some(model(*v)),
        *v is Text && text_fits(*old(memory), v->Text_0@) ==> r is Ok && final(out)@ == old(out)@
            + seq![
            FlatValue::I32(old(memory).spec_heap_end() as u32),
            FlatValue::I32(encode_utf8(v->Text_0@).len() as u32),
        ] && final(memory).spec_bytes().subrange(
            old(memory).spec_heap_end() as int,
            (old(memory).spec_heap_end() + encode_utf8(v->Text_0@).len()) as int,
        ) == encode_utf8(v->Text_0@),
        *v is List && list_fits(*old(memory), list_element(*t), v->List_0@.len()) ==> r is Ok
            && final(out)@ == old(out)@ + seq![
            FlatValue::I32(
                align_up(old(memory).spec_heap_end(), alignment_of(list_element(*t))) as u32,
            ),
            FlatValue::I32(v->List_0@.len() as u32),
        ],
        *v is Variant && *t is Variant && r is Ok ==> ({
            let slots = final(out)@.subrange(old(out)@.len() as int, final(out)@.len() as int);
            let case = t->Variant_0@[v->Variant_0 as int]@;
            &&& slots[0] == FlatValue::I32(v->Variant_0)
            &&& forall|j: int|
                1 + fields_flat(case).len() <= j < slots.len() ==> #[trigger] slots[j]
                    == neutral_spec(flat_of(*t)[j])
        }),
        out_of_line_fits(*t, model(*v), *old(memory)) ==> r is Ok && final(memory).spec_heap_end()
            == encoded_heap_end(*t, model(*v), old(memory).spec_heap_end())->Some_0,
        out_of_line_fits(*t, model(*v), *old(memory)) ==> final(out)@ == old(out)@ + lowered_slots(
            *t,
            model(*v),
            old(memory).spec_heap_end(),
        ),
    decreases v,
{
    let ghost out0 = out@;
    let ghost m = model(*v);
    match (v, t) {
        (WitValue::Record(fields), TypeDescriptor::Record(types)) => {
            proof {
                lemma_models_len(fields@);
            }
            let r = lower_fields_into(types, fields, memory, out);
            proof {
                if r is Ok {
                    let appended = out@.subrange(out0.len() as int, out@.len() as int);
                    assert forall|mem: Seq<u8>|
                        agree_on(
                            mem,
                            memory.spec_bytes(),
                            old(memory).spec_heap_end(),
                            memory.spec_heap_end(),
                        ) implies #[trigger] lift_spec(*t, appended, mem) == Some(m) by {
                        assert(fields_lift(types@, appended, mem) == Some(models(fields@)));
                    }
                }
            }
            r
        },
        (WitValue::Variant(d, fields), TypeDescriptor::Variant(cases)) => {
            proof {
                lemma_all_variants_well_formed(cases@);
                if is_inline(*t) {
                    lemma_all_cases_inline(cases@, *d as int);
                }
            }
            let mut part: Vec<FlatValue> = Vec::new();
            proof {
                lemma_models_len(fields@);
            }
            match lower_fields_into(&cases[*d as usize], fields, memory, &mut part) {
                Ok(()) => {},
                Err(e) => {
                    assert(out@.subrange(0, out0.len() as int) =~= out0);
                    return Err(e);
                },
            }
            let overlay = crate::layout::variants_flat_of(cases);
            let mut widened = part.join_into(&overlay);
            let ghost before = out@;
            out.push(FlatValue::I32(*d));
            out.append(&mut widened);
            assert(out@ =~= before + (seq![FlatValue::I32(*d)] + widen(part@, overlay@)));
            proof {
                let appended = out@.subrange(out0.len() as int, out@.len() as int);
                let case = cases@[*d as int]@;
                assert(out@.subrange(0, out0.len() as int) =~= out0);
                assert(part@.subrange(0, part@.len() as int) =~= part@);
                assert(appended =~= seq![FlatValue::I32(*d)] + widen(part@, overlay@));
                assert(kinds(appended) =~= flat_of(*t));
                assert(kinds(part@).len() == part@.len());
                assert forall|j: int|
                    1 + fields_flat(case).len() <= j < appended.len() implies #[trigger] appended[j]
                        == neutral_spec(flat_of(*t)[j]) by {
                    assert(appended[j] == widen(part@, overlay@)[j - 1]);
                }
                lemma_narrow_widen(cases@, *d as int, part@);
                assert(appended.subrange(1, appended.len() as int) =~= widen(part@, overlay@));
                assert((*d as u64) as u32 == *d) by (bit_vector);
                assert forall|mem: Seq<u8>|
                    agree_on(
                        mem,
                        memory.spec_bytes(),
                        old(memory).spec_heap_end(),
                        memory.spec_heap_end(),
                    ) implies #[trigger] lift_spec(*t, appended, mem) == Some(m) by {
                    assert(fields_lift(case, part@, mem) == Some(models(fields@)));
                }
            }
            Ok(())
        },
        (WitValue::Text(text), TypeDescriptor::Text) => {
            let (address, length) = match store_text(text, memory) {
                Ok(stored) => stored,
                Err(e) => {
                    assert(out@.subrange(0, out0.len() as int) =~= out0);
                    return Err(e);
                },
            };
            out.push(FlatValue::I32(address));
            out.push(FlatValue::I32(length));
            proof {
                let appended = out@.subrange(out0.len() as int, out@.len() as int);
                assert(out@.subrange(0, out0.len() as int) =~= out0);
                assert(appended =~= seq![FlatValue::I32(address), FlatValue::I32(length)]);
                assert(kinds(appended) =~= flat_of(*t));
                assert((address as u64) as u32 == address) by (bit_vector);
                assert((length as u64) as u32 == length) by (bit_vector);
                encode_utf8_valid_utf8(text@);
                encode_utf8_decode_utf8(text@);
                assert forall|mem: Seq<u8>|
                    agree_on(
                        mem,
                        memory.spec_bytes(),
                        old(memory).spec_heap_end(),
                        memory.spec_heap_end(),
                    ) implies #[trigger] lift_spec(*t, appended, mem) == Some(m) by {
                    assert(mem.subrange(address as int, address + length) =~= memory.spec_bytes().subrange(
                        address as int,
                        address + length,
                    ));
                }
            }
            Ok(())
        },
        (WitValue::List(items), TypeDescriptor::List(element)) => {
            proof {
                lemma_models_len(items@);
            }
            let (address, count) = match store_list(element, items, memory) {
                Ok(stored) => stored,
                Err(e) => {
                    assert(out@.subrange(0, out0.len() as int) =~= out0);
                    return Err(e);
                },
            };
            out.push(FlatValue::I32(address));
            out.push(FlatValue::I32(count));
            proof {
                let appended = out@.subrange(out0.len() as int, out@.len() as int);
                assert(out@.subrange(0, out0.len() as int) =~= out0);
                assert(appended =~= seq![FlatValue::I32(address), FlatValue::I32(count)]);
                assert(kinds(appended) =~= flat_of(*t));
                assert((address as u64) as u32 == address) by (bit_vector);
                assert((count as u64) as u32 == count) by (bit_vector);
                assert forall|mem: Seq<u8>|
                    agree_on(
                        mem,
                        memory.spec_bytes(),
                        old(memory).spec_heap_end(),
                        memory.spec_heap_end(),
                    ) implies #[trigger] lift_spec(*t, appended, mem) == Some(m) by {
                    assert(elements_at(**element, mem, address as nat, count as nat) == Some(
                        models(items@),
                    ));
                }
            }
            Ok(())
        },
        _ => {
            lower_scalar_into(v, out);
            proof {
                let appended = out@.subrange(out0.len() as int, out@.len() as int);
                assert(out@.subrange(0, out0.len() as int) =~= out0);
                assert(appended =~= lower_spec(*t, m));
                lemma_lower_shape(*t, m);
                assert forall|mem: Seq<u8>|
                    agree_on(
                        mem,
                        memory.spec_bytes(),
                        old(memory).spec_heap_end(),
                        memory.spec_heap_end(),
                    ) implies #[trigger] lift_spec(*t, appended, mem) == Some(m) by {
                    lemma_lift_from_lower(*t, m, mem);
                }
            }
            Ok(())
        },
    }
}

/// Appends the flat slots of each of `fields` to `out`, in order.
fn lower_fields_into(
    types: &Vec<TypeDescriptor>,
    fields: &Vec<WitValue>,
    memory: &mut LinearMemory,
    out: &mut Vec<FlatValue>,
) -> (r: Result<(), RuntimeError>)
    requires
        fields_have_types(models(fields@), types@),
        all_well_formed(types@),
        old(memory).wf(),
    ensures
        final(memory).wf(),
        preserves_below_heap(*old(memory), *final(memory)),
        final(out)@.len() >= old(out)@.len(),
        final(out)@.subrange(0, old(out)@.len() as int) == old(out)@,
        all_inline(types@) ==> r is Ok && final(out)@ == old(out)@ + fields_lower(
            types@,
            models(fields@),
        ) && *final(memory) == *old(memory),
        r is Ok ==> kinds(final(out)@.subrange(old(out)@.len() as int, final(out)@.len() as int))
            == fields_flat(types@),
        r is Ok ==> forall|mem: Seq<u8>|
            agree_on(
                mem,
                final(memory).spec_bytes(),
                old(memory).spec_heap_end(),
                final(memory).spec_heap_end(),
            ) ==> #[trigger] fields_lift(
                types@,
                final(out)@.subrange(old(out)@.len() as int, final(out)@.len() as int),
                mem,
            ) == Some(models(fields@)),
        types@.len() == fields@.len() && fields_heap_end(
            types@,
            models(fields@),
            old(memory).spec_heap_end(),
        ) is Some && fields_heap_end(types@, models(fields@), old(memory).spec_heap_end())->Some_0
            <= old(memory).spec_bytes().len() ==> r is Ok && final(memory).spec_heap_end()
            == fields_heap_end(types@, models(fields@), old(memory).spec_heap_end())->Some_0,
        types@.len() == fields@.len() && fields_heap_end(
            types@,
            models(fields@),
            old(memory).spec_heap_end(),
        ) is Some && fields_heap_end(types@, models(fields@), old(memory).spec_heap_end())->Some_0
            <= old(memory).spec_bytes().len() ==> final(out)@ == old(out)@ + fields_lowered(
            types@,
            models(fields@),
            old(memory).spec_heap_end(),
        ),
    decreases fields@,
{
    let ghost start = out@;
    let ghost memory0 = *memory;
    let ghost ms = models(fields@);
    proof {
        lemma_models_len(fields@);
        lemma_all_well_formed(types@);
        assert(out@.subrange(0, start.len() as int) =~= start);
        assert(kinds(out@.subrange(start.len() as int, out@.len() as int)) =~= fields_flat(
            types@.take(0),
        ));
        assert(ms.take(0) =~= seq![]);
        assert(types@.take(0) =~= seq![]);
    }
    let mut i: usize = 0;
    while i < fields.len()
        invariant
            i <= fields@.len(),
            ms == models(fields@),
            ms.len() == fields@.len(),
            types@.len() == fields@.len(),
            fields_have_types(ms, types@),
            forall|k: int| 0 <= k < types@.len() ==> #[trigger] well_formed(types@[k]),
            memory.wf(),
            memory0 == *old(memory),
            preserves_below_heap(memory0, *memory),
            all_inline(types@) ==> out@ == start + fields_lower(
                types@.take(i as int),
                ms.take(i as int),
            ) && *memory == memory0,
            start == old(out)@,
            out@.len() >= start.len(),
            out@.subrange(0, start.len() as int) == start,
            kinds(out@.subrange(start.len() as int, out@.len() as int)) == fields_flat(
                types@.take(i as int),
            ),
            forall|mem: Seq<u8>|
                agree_on(mem, memory.spec_bytes(), memory0.spec_heap_end(), memory.spec_heap_end())
                    ==> #[trigger] fields_lift(
                    types@.take(i as int),
                    out@.subrange(start.len() as int, out@.len() as int),
                    mem,
                ) == Some(ms.take(i as int)),
            fields_heap_end(types@, ms, memory0.spec_heap_end()) is Some && fields_heap_end(
                types@,
                ms,
                memory0.spec_heap_end(),
            )->Some_0 <= memory0.spec_bytes().len() ==> fields_heap_end(
                types@.take(i as int),
                ms.take(i as int),
                memory0.spec_heap_end(),
            ) == Some(memory.spec_heap_end()),
            fields_heap_end(types@, ms, memory0.spec_heap_end()) is Some && fields_heap_end(
                types@,
                ms,
                memory0.spec_heap_end(),
            )->Some_0 <= memory0.spec_bytes().len() ==> out@ == start + fields_lowered(
                types@.take(i as int),
                ms.take(i as int),
                memory0.spec_heap_end(),
            ),
        decreases fields@.len() - i,
    {
        proof {
            lemma_fields_heap_end_prefix(types@, ms, memory0.spec_heap_end(), i as int + 1);
            lemma_fields_heap_end_prefix(types@, ms, memory0.spec_heap_end(), ms.len() as int);
            assert(ms.take(ms.len() as int) =~= ms);
            assert(types@.take(ms.len() as int) =~= types@);
            assert(ms.take(i + 1).drop_last() =~= ms.take(i as int));
            assert(ms.take(i + 1).last() == ms[i as int]);
            assert(types@.take(i + 1).last() == types@[i as int]);
            lemma_models_index(fields@, i as int);
            lemma_fields_have_types(ms, types@, i as int);
            if all_inline(types@) {
                lemma_all_inline(types@, i as int);
            }
            assert(types@.take(i + 1).drop_last() =~= types@.take(i as int));
            assert(ms.take(i + 1).drop_last() =~= ms.take(i as int));
        }
        let ghost before = *memory;
        let ghost out_before = out@;
        let lowered = lower_into(&types[i], &fields[i], memory, out);
        proof {
            lemma_preserves_trans(memory0, before, *memory);
            lemma_extends_trans(start, out_before, out@);
        }
        match lowered {
            Ok(()) => {},
            Err(e) => {
                return Err(e);
            },
        }
        proof {
            let c_old = out_before.subrange(start.len() as int, out_before.len() as int);
            let c_new = out@.subrange(start.len() as int, out@.len() as int);
            let piece = out@.subrange(out_before.len() as int, out@.len() as int);
            let n = c_old.len() as int;
            assert(kinds(c_old).len() == n);
            assert(c_new =~= c_old + piece) by {
                assert forall|j: int| 0 <= j < out_before.len() implies out@[j] == out_before[j] by {
                    assert(out@.subrange(0, out_before.len() as int)[j] == out_before[j]);
                }
            }
            assert(kinds(c_new) =~= kinds(c_old) + kinds(piece));
            lemma_fields_end_step(types@, 0, i as int);
            assert(ms.take(i as int).push(ms[i as int]) =~= ms.take(i + 1));
            assert(c_new.subrange(0, n) =~= c_old.subrange(0, n));
            assert(c_new.subrange(n, c_new.len() as int) =~= piece);
            assert forall|mem: Seq<u8>|
                agree_on(mem, memory.spec_bytes(), memory0.spec_heap_end(), memory.spec_heap_end())
                    implies #[trigger] fields_lift(types@.take(i + 1), c_new, mem) == Some(
                    ms.take(i + 1),
                ) by {
                assert forall|k: int| memory0.spec_heap_end() <= k < before.spec_heap_end() implies #[trigger] mem[k]
                    == before.spec_bytes()[k] by {
                    assert(mem[k] == memory.spec_bytes()[k]);
                }
                assert(agree_on(mem, before.spec_bytes(), memory0.spec_heap_end(), before.spec_heap_end()));
                lemma_fields_lift_prefix(types@.take(i as int), c_new, c_old, mem);
                assert(agree_on(mem, memory.spec_bytes(), before.spec_heap_end(), memory.spec_heap_end()));
                assert(lift_spec(types@[i as int], piece, mem) == Some(ms[i as int]));
            }
        }
        proof {
            if all_inline(types@) {
                assert(out@ =~= start + fields_lower(types@.take(i + 1), ms.take(i + 1)));
            }
        }
        i = i + 1;
    }
    assert(types@.take(fields@.len() as int) =~= types@);
    assert(ms.take(fields@.len() as int) =~= ms);
    Ok(())
}

/// Lowers `v`, a value of type `t`, into its flat representation.
///
/// String bytes and list elements are placed in fresh allocations and appear as an address and a
/// length; an inline value leaves memory untouched.
pub fn lower(t: &TypeDescriptor, v: &WitValue, memory: &mut LinearMemory) -> (r: Result<
    Vec<FlatValue>,
    RuntimeError,
>)
    requires
        has_type(model(*v), *t),
        well_formed(*t),
        old(memory).wf(),
    ensures
        final(memory).wf(),
        preserves_below_heap(*old(memory), *final(memory)),
        is_inline(*t) ==> r is Ok && r->Ok_0@ == lower_spec(*t, model(*v)) && *final(memory)
            == *old(memory),
        r is Ok ==> r->Ok_0@.len() == flat_of(*t).len(),
        r is Ok ==> forall|mem: Seq<u8>|
            agree_on(
                mem,
                final(memory).spec_bytes(),
                old(memory).spec_heap_end(),
                final(memory).spec_heap_end(),
            ) ==> #[trigger] lift_spec(*t, r->Ok_0@, mem) == Some(model(*v)),
        r is Ok ==> kinds(r->Ok_0@) == flat_of(*t),
        *v is Text && text_fits(*old(memory), v->Text_0@) ==> r is Ok && r->Ok_0@ == seq![
            FlatValue::I32(old(memory).spec_heap_end() as u32),
            FlatValue::I32(encode_utf8(v->Text_0@).len() as u32),
        ] && final(memory).spec_bytes().subrange(
            old(memory).spec_heap_end() as int,
            (old(memory).spec_heap_end() + encode_utf8(v->Text_0@).len()) as int,
        ) == encode_utf8(v->Text_0@),
        *v is List && list_fits(*old(memory), list_element(*t), v->List_0@.len()) ==> r is Ok
            && r->Ok_0@ == seq![
            FlatValue::I32(
                align_up(old(memory).spec_heap_end(), alignment_of(list_element(*t))) as u32,
            ),
            FlatValue::I32(v->List_0@.len() as u32),
        ],
        r is Err ==> final(memory).spec_heap_end() == old(memory).spec_heap_end(),
        *v is Variant && *t is Variant && r is Ok ==> ({
            let case = t->Variant_0@[v->Variant_0 as int]@;
            &&& r->Ok_0@[0] == FlatValue::I32(v->Variant_0)
            &&& forall|j: int|
                1 + fields_flat(case).len() <= j < r->Ok_0@.len() ==> #[trigger] r->Ok_0@[j]
                    == neutral_spec(flat_of(*t)[j])
        }),
        out_of_line_fits(*t, model(*v), *old(memory)) ==> r is Ok && final(memory).spec_heap_end()
            == encoded_heap_end(*t, model(*v), old(memory).spec_heap_end())->Some_0,
        out_of_line_fits(*t, model(*v), *old(memory)) ==> r is Ok && r->Ok_0@ == lowered_slots(
            *t,
            model(*v),
            old(memory).spec_heap_end(),
        ),
{
    let mut r: Vec<FlatValue> = Vec::new();
    let mark = memory.heap_end();
    let ghost before = *memory;
    match lower_into(t, v, memory, &mut r) {
        Ok(()) => {},
        Err(e) => {
            memory.release_to(mark);
            assert(preserves_below_heap(before, *memory));
            return Err(e);
        },
    }
    proof {
        assert(r@.subrange(0, r@.len() as int) =~= r@);
        assert(kinds(r@).len() == r@.len());
        if is_inline(*t) {
            assert(r@ =~= lower_spec(*t, model(*v)));
        }
    }
    Ok(r)
}

/// Reads the scalar of type `t` from the slots starting at `start`.
fn lift_scalar(t: &TypeDescriptor, x: &Vec<FlatValue>, start: usize) -> (r: WitValue)
    requires
        !(t is Unit || t is Text || t is List || t is Record || t is Variant),
        start + flat_of(*t).len() <= x@.len(),
    ensures
        model(r) == scalar_lift(*t, x@.subrange(start as int, x@.len() as int)),
{
    let ghost xs = x@.subrange(start as int, x@.len() as int);
    let n = x.len();
    assert(xs[0] == x@[start as int]);
    let first = x[start].to_bits();
    match t {
        TypeDescriptor::Bool => WitValue::Bool(first != 0),
        TypeDescriptor::U8 => WitValue::U8(#[verifier::truncate] (first as u8)),
        TypeDescriptor::S8 => WitValue::S8(#[verifier::truncate] ((#[verifier::truncate] (first as u8)) as i8)),
        TypeDescriptor::U16 => WitValue::U16(#[verifier::truncate] (first as u16)),
        TypeDescriptor::S16 => WitValue::S16(#[verifier::truncate] ((#[verifier::truncate] (first as u16)) as i16)),
        TypeDescriptor::U32 => WitValue::U32(#[verifier::truncate] (first as u32)),
        TypeDescriptor::S32 => WitValue::S32(#[verifier::truncate] ((#[verifier::truncate] (first as u32)) as i32)),
        TypeDescriptor::U64 => WitValue::U64(first),
        TypeDescriptor::S64 => WitValue::S64(#[verifier::truncate] (first as i64)),
        TypeDescriptor::U128 => {
            assert(xs[1] == x@[start + 1]);
            let second = x[start + 1].to_bits();
            WitValue::U128(((second as u128) << 64u128) | (first as u128))
        },
        TypeDescriptor::S128 => {
            assert(xs[1] == x@[start + 1]);
            let second = x[start + 1].to_bits();
            WitValue::S128(#[verifier::truncate] ((((second as u128) << 64u128) | (first as u128)) as i128))
        },
        TypeDescriptor::Float32 => WitValue::Float32(#[verifier::truncate] (first as u32)),
        _ => WitValue::Float64(first),
    }
}

/// Lifts the value of type `t` from the slots starting at `start`, reading string bytes and
/// list elements from `memory`.
fn lift_at(t: &TypeDescriptor, x: &Vec<FlatValue>, start: usize, memory: &LinearMemory) -> (r: Result<
    WitValue,
    RuntimeError,
>)
    requires
        well_formed(*t),
        memory.wf(),
        start + flat_of(*t).len() <= x@.len(),
    ensures
        match lift_spec(*t, x@.subrange(start as int, x@.len() as int), memory.spec_bytes()) {
            Some(m) => r is Ok && model(r->Ok_0) == m,
            None => r is Err,
        },
        is_inline(*t) && lift_spec(
            *t,
            x@.subrange(start as int, x@.len() as int),
            memory.spec_bytes(),
        ) is None ==> r == Err::<WitValue, RuntimeError>(RuntimeError::InvalidLayout),
        slot_names_no_case(*t, x@.subrange(start as int, x@.len() as int)) ==> r == Err::<
            WitValue,
            RuntimeError,
        >(RuntimeError::InvalidLayout),
    decreases t,
{
    let ghost xs = x@.subrange(start as int, x@.len() as int);
    let n = x.len();
    match t {
        TypeDescriptor::Unit => Ok(WitValue::Unit),
        TypeDescriptor::Record(types) => {
            match lift_fields_at(types, x, start, memory) {
                Ok(fields) => Ok(WitValue::Record(fields)),
                Err(e) => Err(e),
            }
        },
        TypeDescriptor::Variant(cases) => {
            assert(xs[0] == x@[start as int]);
            let d = x[start].to_bits();
            if d >= cases.len() as u64 {
                return Err(RuntimeError::InvalidLayout);
            }
            proof {
                lemma_variants_absorb(cases@, d as int);
                lemma_all_variants_well_formed(cases@);
                if is_inline(*t) {
                    lemma_all_cases_inline(cases@, d as int);
                }
            }
            let case = &cases[d as usize];
            let own = crate::layout::fields_flat_of(case);
            let payload = x.split_into(start + 1, &own);
            assert(x@.subrange(start + 1, x@.len() as int) =~= xs.subrange(1, xs.len() as int));
            assert(payload@.subrange(0, payload@.len() as int) =~= payload@);
            match lift_fields_at(case, &payload, 0, memory) {
                Ok(fields) => Ok(WitValue::Variant(#[verifier::truncate] (d as u32), fields)),
                Err(e) => Err(e),
            }
        },
        TypeDescriptor::Text => {
            let address = x[start].to_bits();
            let length = x[start + 1].to_bits();
            match load_text(
                memory,
                #[verifier::truncate] (address as u32),
                #[verifier::truncate] (length as u32),
            ) {
                Ok(text) => Ok(WitValue::Text(text)),
                Err(e) => Err(e),
            }
        },
        TypeDescriptor::List(element) => {
            let address = x[start].to_bits();
            let count = x[start + 1].to_bits();
            match decode_list(
                element,
                memory,
                #[verifier::truncate] (address as u32),
                #[verifier::truncate] (count as u32),
            ) {
                Ok(items) => Ok(WitValue::List(items)),
                Err(e) => Err(e),
            }
        },
        _ => Ok(lift_scalar(t, x, start)),
    }
}

/// Lifts each of `types` in order from the slots starting at `start`.
fn lift_fields_at(
    types: &Vec<TypeDescriptor>,
    x: &Vec<FlatValue>,
    start: usize,
    memory: &LinearMemory,
) -> (r: Result<Vec<WitValue>, RuntimeError>)
    requires
        all_well_formed(types@),
        memory.wf(),
        start + fields_flat(types@).len() <= x@.len(),
    ensures
        match fields_lift(types@, x@.subrange(start as int, x@.len() as int), memory.spec_bytes()) {
            Some(fs) => r is Ok && models(r->Ok_0@) == fs,
            None => r is Err,
        },
        all_inline(types@) && fields_lift(
            types@,
            x@.subrange(start as int, x@.len() as int),
            memory.spec_bytes(),
        ) is None ==> r == Err::<Vec<WitValue>, RuntimeError>(RuntimeError::InvalidLayout),
    decreases types@,
{
    let ghost xs = x@.subrange(start as int, x@.len() as int);
    let ghost mem = memory.spec_bytes();
    proof {
        lemma_all_well_formed(types@);
    }
    let n = x.len();
    let mut fields: Vec<WitValue> = Vec::new();
    let mut offset: usize = 0;
    let mut i: usize = 0;
    while i < types.len()
        invariant
            i <= types@.len(),
            n == x@.len(),
            memory.wf(),
            forall|k: int| 0 <= k < types@.len() ==> #[trigger] well_formed(types@[k]),
            start + fields_flat(types@).len() <= x@.len(),
            xs == x@.subrange(start as int, x@.len() as int),
            offset == fields_flat(types@.take(i as int)).len(),
            mem == memory.spec_bytes(),
            fields_lift(types@.take(i as int), xs, mem) == Some(models(fields@)),
        decreases types@.len() - i,
    {
        proof {
            lemma_fields_end_step(types@, 0, i as int);
            crate::layout::lemma_fields_flat_prefix(types@, i as int + 1);
            if all_inline(types@) {
                lemma_all_inline(types@, i as int);
            }
            assert(types@.take(i + 1).drop_last() =~= types@.take(i as int));
            assert(x@.subrange(start + offset, x@.len() as int) =~= xs.subrange(
                offset as int,
                xs.len() as int,
            ));
        }
        match lift_at(&types[i], x, start + offset, memory) {
            Ok(value) => {
                proof {
                    lemma_models_push(fields@, value);
                }
                fields.push(value);
            },
            Err(e) => {
                proof {
                    lemma_fields_lift_prefix_none(types@, xs, mem, i as int + 1);
                }
                return Err(e);
            },
        }
        offset = offset + types[i].count();
        i = i + 1;
    }
    assert(types@.take(types@.len() as int) =~= types@);
    Ok(fields)
}

/// Lifts a value of type `t` from its flat representation, reading string bytes and list
/// elements from `memory`.
///
/// Fails with `InvalidLayout` where the number of slots is not the type's slot count or a
/// discriminant names no case.
pub fn lift_from(t: &TypeDescriptor, flat: &Vec<FlatValue>, memory: &LinearMemory) -> (r: Result<
    WitValue,
    RuntimeError,
>)
    requires
        well_formed(*t),
        memory.wf(),
    ensures
        flat@.len() != flat_of(*t).len() ==> r == Err::<WitValue, RuntimeError>(
            RuntimeError::InvalidLayout,
        ),
        flat@.len() == flat_of(*t).len() ==> match lift_spec(*t, flat@, memory.spec_bytes()) {
            Some(m) => r is Ok && model(r->Ok_0) == m,
            None => r is Err,
        },
        is_inline(*t) && flat@.len() == flat_of(*t).len() && lift_spec(
            *t,
            flat@,
            memory.spec_bytes(),
        ) is None ==> r == Err::<WitValue, RuntimeError>(RuntimeError::InvalidLayout),
        flat@.len() == flat_of(*t).len() && slot_names_no_case(*t, flat@) ==> r == Err::<
            WitValue,
            RuntimeError,
        >(RuntimeError::InvalidLayout),
{
    if flat.len() != t.count() {
        return Err(RuntimeError::InvalidLayout);
    }
    assert(flat@.subrange(0, flat@.len() as int) =~= flat@);
    lift_at(t, flat, 0, memory)
}

/// Whether `t` is an enum whose discriminant slot, the first of `x`, names no case.
pub open spec fn slot_names_no_case(t: TypeDescriptor, x: Seq<FlatValue>) -> bool {
    match t {
        TypeDescriptor::Variant(cases) => x.len() >= 1 && x[0].bits() >= cases@.len(),
        _ => false,
    }
}

/// A discriminant slot naming no case makes lifting fail instead of yielding a value.
pub proof fn lemma_invalid_discriminant_lift(t: TypeDescriptor, x: Seq<FlatValue>, mem: Seq<u8>)
    requires
        t is Variant,
        x.len() >= 1,
        x[0].bits() >= t->Variant_0@.len(),
    ensures
        lift_spec(t, x, mem) is None,
{
}

/// Lifting the lowered form of an inline value gives the value back, whatever the memory.
pub proof fn lemma_lift_from_lower(t: TypeDescriptor, m: ValueModel, mem: Seq<u8>)
    requires
        has_type(m, t),
        is_inline(t),
    ensures
        lift_spec(t, lower_spec(t, m), mem) == Some(m),
        lower_spec(t, m).len() == flat_of(t).len(),
{
    lemma_lower_shape(t, m);
    assert(kinds(lower_spec(t, m)).len() == lower_spec(t, m).len());
    assert(lower_spec(t, m).subrange(0, lower_spec(t, m).len() as int) =~= lower_spec(t, m));
    lemma_lower_lift(t, m, lower_spec(t, m), mem);
}

} // verus!
