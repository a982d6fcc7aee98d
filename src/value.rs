//! Values of encodable types, their mathematical model, and typing.
use vstd::prelude::*;

use crate::layout::TypeDescriptor;

verus! {

/// A value of an encodable type.
///
/// Floating-point values carry their IEEE-754 bit patterns. A variant value holds its
/// discriminant and the fields of the selected case.
#[derive(Debug, PartialEq, Eq)]
pub enum WitValue {
    Unit,
    Bool(bool),
    U8(u8),
    S8(i8),
    U16(u16),
    S16(i16),
    U32(u32),
    S32(i32),
    U64(u64),
    S64(i64),
    U128(u128),
    S128(i128),
    Float32(u32),
    Float64(u64),
    Text(String),
    List(Vec<WitValue>),
    Record(Vec<WitValue>),
    Variant(u32, Vec<WitValue>),
}

/// The mathematical model of a [`WitValue`].
pub enum ValueModel {
    Unit,
    Bool(bool),
    U8(u8),
    S8(i8),
    U16(u16),
    S16(i16),
    U32(u32),
    S32(i32),
    U64(u64),
    S64(i64),
    U128(u128),
    S128(i128),
    Float32(u32),
    Float64(u64),
    Text(Seq<char>),
    List(Seq<ValueModel>),
    Record(Seq<ValueModel>),
    Variant(u32, Seq<ValueModel>),
}

pub open spec fn model(v: WitValue) -> ValueModel
    decreases v,
{
    match v {
        WitValue::Unit => ValueModel::Unit,
        WitValue::Bool(b) => ValueModel::Bool(b),
        WitValue::U8(x) => ValueModel::U8(x),
        WitValue::S8(x) => ValueModel::S8(x),
        WitValue::U16(x) => ValueModel::U16(x),
        WitValue::S16(x) => ValueModel::S16(x),
        WitValue::U32(x) => ValueModel::U32(x),
        WitValue::S32(x) => ValueModel::S32(x),
        WitValue::U64(x) => ValueModel::U64(x),
        WitValue::S64(x) => ValueModel::S64(x),
        WitValue::U128(x) => ValueModel::U128(x),
        WitValue::S128(x) => ValueModel::S128(x),
        WitValue::Float32(x) => ValueModel::Float32(x),
        WitValue::Float64(x) => ValueModel::Float64(x),
        WitValue::Text(s) => ValueModel::Text(s@),
        WitValue::List(items) => ValueModel::List(models(items@)),
        WitValue::Record(fields) => ValueModel::Record(models(fields@)),
        WitValue::Variant(d, fields) => ValueModel::Variant(d, models(fields@)),
    }
}

pub open spec fn models(values: Seq<WitValue>) -> Seq<ValueModel>
    decreases values,
{
    if values.len() == 0 {
        seq![]
    } else {
        models(values.drop_last()).push(model(values.last()))
    }
}

pub proof fn lemma_models_len(values: Seq<WitValue>)
    ensures
        models(values).len() == values.len(),
    decreases values.len(),
{
    if values.len() > 0 {
        lemma_models_len(values.drop_last());
    }
}

pub proof fn lemma_models_index(values: Seq<WitValue>, i: int)
    requires
        0 <= i < values.len(),
    ensures
        models(values)[i] == model(values[i]),
    decreases values.len(),
{
    lemma_models_len(values.drop_last());
    if i < values.len() - 1 {
        lemma_models_index(values.drop_last(), i);
    }
}

pub proof fn lemma_models_push(values: Seq<WitValue>, v: WitValue)
    ensures
        models(values.push(v)) == models(values).push(model(v)),
{
    assert(values.push(v).drop_last() =~= values);
}

/// Whether the value `m` belongs to the type `t`.
pub open spec fn has_type(m: ValueModel, t: TypeDescriptor) -> bool
    decreases m,
{
    match (m, t) {
        (ValueModel::Unit, TypeDescriptor::Unit) => true,
        (ValueModel::Bool(_), TypeDescriptor::Bool) => true,
        (ValueModel::U8(_), TypeDescriptor::U8) => true,
        (ValueModel::S8(_), TypeDescriptor::S8) => true,
        (ValueModel::U16(_), TypeDescriptor::U16) => true,
        (ValueModel::S16(_), TypeDescriptor::S16) => true,
        (ValueModel::U32(_), TypeDescriptor::U32) => true,
        (ValueModel::S32(_), TypeDescriptor::S32) => true,
        (ValueModel::U64(_), TypeDescriptor::U64) => true,
        (ValueModel::S64(_), TypeDescriptor::S64) => true,
        (ValueModel::U128(_), TypeDescriptor::U128) => true,
        (ValueModel::S128(_), TypeDescriptor::S128) => true,
        (ValueModel::Float32(_), TypeDescriptor::Float32) => true,
        (ValueModel::Float64(_), TypeDescriptor::Float64) => true,
        (ValueModel::Text(_), TypeDescriptor::Text) => true,
        (ValueModel::List(items), TypeDescriptor::List(element)) => all_have_type(items, *element),
        (ValueModel::Record(fields), TypeDescriptor::Record(types)) => fields_have_types(
            fields,
            types@,
        ),
        (ValueModel::Variant(d, fields), TypeDescriptor::Variant(cases)) => d < cases@.len()
            && fields_have_types(fields, cases@[d as int]@),
        _ => false,
    }
}

pub open spec fn all_have_type(items: Seq<ValueModel>, t: TypeDescriptor) -> bool
    decreases items,
{
    items.len() == 0 || (all_have_type(items.drop_last(), t) && has_type(items.last(), t))
}

pub open spec fn fields_have_types(fields: Seq<ValueModel>, types: Seq<TypeDescriptor>) -> bool
    decreases fields,
{
    fields.len() == types.len() && (fields.len() == 0 || (fields_have_types(
        fields.drop_last(),
        types.drop_last(),
    ) && has_type(fields.last(), types.last())))
}

pub proof fn lemma_fields_have_types(fields: Seq<ValueModel>, types: Seq<TypeDescriptor>, i: int)
    requires
        fields_have_types(fields, types),
        0 <= i < fields.len(),
    ensures
        has_type(fields[i], types[i]),
    decreases fields.len(),
{
    if i < fields.len() - 1 {
        lemma_fields_have_types(fields.drop_last(), types.drop_last(), i);
    }
}

pub proof fn lemma_all_have_type(items: Seq<ValueModel>, t: TypeDescriptor, i: int)
    requires
        all_have_type(items, t),
        0 <= i < items.len(),
    ensures
        has_type(items[i], t),
    decreases items.len(),
{
    if i < items.len() - 1 {
        lemma_all_have_type(items.drop_last(), t, i);
    }
}

/// Whether a value of type `t` is encoded without out-of-line storage.
pub open spec fn is_inline(t: TypeDescriptor) -> bool
    decreases t,
{
    match t {
        TypeDescriptor::Text | TypeDescriptor::List(_) => false,
        TypeDescriptor::Record(fields) => all_inline(fields@),
        TypeDescriptor::Variant(cases) => all_cases_inline(cases@),
        _ => true,
    }
}

pub open spec fn all_inline(fields: Seq<TypeDescriptor>) -> bool
    decreases fields,
{
    fields.len() == 0 || (all_inline(fields.drop_last()) && is_inline(fields.last()))
}

pub open spec fn all_cases_inline(cases: Seq<Vec<TypeDescriptor>>) -> bool
    decreases cases,
{
    cases.len() == 0 || (all_cases_inline(cases.drop_last()) && all_inline(cases.last()@))
}

pub proof fn lemma_all_inline(fields: Seq<TypeDescriptor>, i: int)
    requires
        all_inline(fields),
        0 <= i < fields.len(),
    ensures
        is_inline(fields[i]),
    decreases fields.len(),
{
    if i < fields.len() - 1 {
        lemma_all_inline(fields.drop_last(), i);
    }
}

pub proof fn lemma_all_cases_inline(cases: Seq<Vec<TypeDescriptor>>, i: int)
    requires
        all_cases_inline(cases),
        0 <= i < cases.len(),
    ensures
        all_inline(cases[i]@),
    decreases cases.len(),
{
    if i < cases.len() - 1 {
        lemma_all_cases_inline(cases.drop_last(), i);
    }
}

} // verus!
